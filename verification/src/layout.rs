//! How the sectors of a compound file are shared out among its streams.
//!
//! A compound file is a header and a sequence of sectors. A table, the FAT, names the sector that
//! follows each sector in a chain; small streams are kept in chains of small sectors within one
//! large stream, with a table of their own. Streams can be changed independently of each other
//! where no sector belongs to two chains.

use vstd::prelude::*;

use crate::bytes::{le16, le32};

verus! {

/// The largest number of a sector.
pub const MAX_SECTOR: u32 = 0xffff_fffa;

/// The mark of a sector that holds part of the list of sectors that hold the table of sectors.
pub const DIFAT_SECTOR: u32 = 0xffff_fffc;

/// The mark of a sector that holds part of the table of sectors.
pub const FAT_SECTOR: u32 = 0xffff_fffd;

/// The mark of the last sector of a chain.
pub const END_OF_CHAIN: u32 = 0xffff_fffe;

/// The mark of a sector that belongs to no chain.
pub const FREE_SECTOR: u32 = 0xffff_ffff;

/// The length from which on a stream is kept in sectors of its own.
pub const SMALL_STREAM_LIMIT: u64 = 4096;

/// What the directory says of a storage or a stream.
#[derive(Clone, Copy)]
pub struct Allocation {
    /// What kind of object it is.
    pub kind: u8,
    /// The first sector.
    pub start: u32,
    /// The length in bytes.
    pub length: u64,
}

/// The 16-bit integer at a position.
pub open spec fn u16_at(raw: Seq<u8>, at: int) -> u16 {
    le16(raw.skip(at))
}

/// The 32-bit integer at a position.
pub open spec fn u32_at(raw: Seq<u8>, at: int) -> u32 {
    le32(raw.skip(at))
}

/// The size of a sector.
pub open spec fn sector_size(raw: Seq<u8>) -> int {
    if u16_at(raw, 26) == 3 {
        512
    } else {
        4096
    }
}

/// Whether there is a header.
pub open spec fn has_header(raw: Seq<u8>) -> bool {
    raw.len() >= 512 && raw.len() >= sector_size(raw)
}

/// The number of whole sectors behind the header.
pub open spec fn whole_count(raw: Seq<u8>) -> int {
    raw.len() as int / sector_size(raw) - 1
}

/// Whether the last sector is whole.
pub open spec fn whole_sectors(raw: Seq<u8>) -> bool {
    raw.len() as int % sector_size(raw) == 0
}

/// The number of sectors behind the header, the last of which may be cut off.
pub open spec fn sector_count(raw: Seq<u8>) -> int {
    if whole_sectors(raw) {
        whole_count(raw)
    } else {
        whole_count(raw) + 1
    }
}

/// Whether there are whole sectors with the given numbers.
pub open spec fn are_sectors(raw: Seq<u8>, ids: Seq<u32>) -> bool {
    forall|k: int| 0 <= k < ids.len() ==> #[trigger] ids[k] < whole_count(raw)
}

/// The position of a sector.
pub open spec fn sector_at(raw: Seq<u8>, id: u32) -> int {
    (id + 1) * sector_size(raw)
}

/// The 32-bit integers from a position on.
pub open spec fn words_at(raw: Seq<u8>, at: int, count: int) -> Seq<u32> {
    Seq::new(count as nat, |k: int| u32_at(raw, at + 4 * k))
}

/// The 32-bit integers in the given sectors.
pub open spec fn words(raw: Seq<u8>, ids: Seq<u32>) -> Seq<u32>
    decreases ids.len(),
{
    if ids.len() == 0 {
        Seq::empty()
    } else {
        words(raw, ids.drop_last()) + words_at(
            raw,
            sector_at(raw, ids.last()),
            sector_size(raw) / 4,
        )
    }
}

/// What the directory says of an object, at a position.
pub open spec fn allocation_at(raw: Seq<u8>, at: int) -> Allocation {
    Allocation {
        kind: raw[at + 66],
        start: u32_at(raw, at + 116),
        length: if u16_at(raw, 26) == 3 {
            u32_at(raw, at + 120) as u64
        } else {
            (u32_at(raw, at + 120) + 0x1_0000_0000 * u32_at(raw, at + 124)) as u64
        },
    }
}

/// What the directory in the given sectors says.
pub open spec fn allocations(raw: Seq<u8>, ids: Seq<u32>) -> Seq<Allocation>
    decreases ids.len(),
{
    if ids.len() == 0 {
        Seq::empty()
    } else {
        allocations(raw, ids.drop_last()) + Seq::new(
            (sector_size(raw) / 128) as nat,
            |k: int| allocation_at(raw, sector_at(raw, ids.last()) + 128 * k),
        )
    }
}

/// The numbers of the sectors that hold the table of sectors, as the header lists them from the
/// `index`-th on.
pub open spec fn listed_from(raw: Seq<u8>, index: int) -> Seq<u32>
    decreases 109 - index,
{
    if index >= 109 || u32_at(raw, 76 + 4 * index) == FREE_SECTOR {
        Seq::empty()
    } else {
        seq![u32_at(raw, 76 + 4 * index)] + listed_from(raw, index + 1)
    }
}

/// The sectors that continue the list in the header, each of which ends with the number of the
/// next, if they come to an end within `limit` sectors.
pub open spec fn list_sectors(raw: Seq<u8>, start: u32, limit: nat) -> Option<Seq<u32>>
    decreases limit,
{
    if start == END_OF_CHAIN || start == FREE_SECTOR {
        Some(Seq::empty())
    } else if limit == 0 || start >= whole_count(raw) {
        None
    } else {
        let next = u32_at(raw, sector_at(raw, start) + sector_size(raw) - 4);
        match list_sectors(raw, next, (limit - 1) as nat) {
            Some(rest) => Some(seq![start] + rest),
            None => None,
        }
    }
}

/// The list in the given sectors.
pub open spec fn list_entries(raw: Seq<u8>, ids: Seq<u32>) -> Seq<u32>
    decreases ids.len(),
{
    if ids.len() == 0 {
        Seq::empty()
    } else {
        list_entries(raw, ids.drop_last()) + words_at(
            raw,
            sector_at(raw, ids.last()),
            sector_size(raw) / 4 - 1,
        )
    }
}

/// The entries of a list up to the last that is in use.
pub open spec fn trimmed(entries: Seq<u32>) -> Seq<u32>
    decreases entries.len(),
{
    if entries.len() > 0 && entries.last() == FREE_SECTOR {
        trimmed(entries.drop_last())
    } else {
        entries
    }
}

/// The numbers of the sectors that hold the table of sectors, as the header and the given sectors
/// list them.
pub open spec fn listed(raw: Seq<u8>, ids: Seq<u32>) -> Seq<u32> {
    listed_from(raw, 0) + trimmed(list_entries(raw, ids))
}

/// The part of a table that is in use.
pub open spec fn used(table: Seq<u32>, count: int) -> Seq<u32> {
    if table.len() > count {
        table.take(count)
    } else {
        table
    }
}

/// The sectors of the chain that starts at the given sector, if it comes to an end within
/// `limit` sectors.
pub open spec fn chain(table: Seq<u32>, start: u32, limit: nat) -> Option<Seq<u32>>
    decreases limit,
{
    if start == END_OF_CHAIN {
        Some(Seq::empty())
    } else if limit == 0 || start >= table.len() {
        None
    } else {
        match chain(table, table[start as int], (limit - 1) as nat) {
            Some(rest) => Some(seq![start] + rest),
            None => None,
        }
    }
}

/// Whether a chain starts at the given sector.
pub open spec fn starts_chain(table: Seq<u32>, start: u32) -> bool {
    chain(table, start, table.len()) is Some
}

/// The start of a chain, if there is one.
pub open spec fn head(start: u32) -> Seq<u32> {
    if start == END_OF_CHAIN {
        Seq::empty()
    } else {
        seq![start]
    }
}

/// Whether an object is a stream that is kept among the small ones, or one that is not.
pub open spec fn is_stream(object: Allocation, small: bool) -> bool {
    object.kind == 2 && object.length > 0 && (object.length < SMALL_STREAM_LIMIT) == small
}

/// The starts of the chains of the small streams, or of the others.
pub open spec fn stream_heads(objects: Seq<Allocation>, small: bool) -> Seq<u32>
    decreases objects.len(),
{
    if objects.len() == 0 {
        Seq::empty()
    } else if is_stream(objects.last(), small) {
        stream_heads(objects.drop_last(), small).push(objects.last().start)
    } else {
        stream_heads(objects.drop_last(), small)
    }
}

/// The sectors that some sector in a table is followed by.
pub open spec fn followers(table: Seq<u32>) -> Seq<u32>
    decreases table.len(),
{
    if table.len() == 0 {
        Seq::empty()
    } else if table.last() <= MAX_SECTOR {
        followers(table.drop_last()).push(table.last())
    } else {
        followers(table.drop_last())
    }
}

/// Whether the chains with the given starts share no sector.
///
/// No sector is the start of two chains, none is reached from two sectors, and none is both.
pub open spec fn chains_are_apart(table: Seq<u32>, heads: Seq<u32>) -> bool {
    let reached = heads + followers(table);
    &&& reached.no_duplicates()
    &&& forall|k: int| 0 <= k < reached.len() ==> #[trigger] reached[k] < table.len()
}

/// Whether no sector is followed by one that belongs to no chain.
pub open spec fn followers_are_used(table: Seq<u32>) -> bool {
    forall|k: int|
        0 <= k < table.len() && (#[trigger] table[k]) < table.len() ==> table[table[k] as int]
            != FREE_SECTOR
}

/// Whether what stands in a table behind the part that is in use belongs to no chain.
pub open spec fn is_free_behind(table: Seq<u32>, count: int) -> bool {
    forall|k: int| count <= k < table.len() ==> #[trigger] table[k] == FREE_SECTOR
}

/// Whether, from a position on, a sector that is in use holds part of the table of sectors.
pub open spec fn is_marked_from(table: Seq<u32>, start: int, count: int) -> bool {
    exists|k: int|
        start <= k < count && 0 <= k < table.len() && #[trigger] table[k] == FAT_SECTOR
}

/// Whether the table of sectors can be extended: what stands behind the part that is in use belongs
/// to no chain.
///
/// Some files have zeros there. They are told from a number as long as the last sector of the table
/// is needed, which it is if it lists one that holds part of the table.
pub open spec fn can_be_extended(raw: Seq<u8>, table: Seq<u32>) -> bool {
    ||| is_free_behind(table, sector_count(raw))
    ||| is_marked_from(table, table.len() - sector_size(raw) / 4, sector_count(raw))
}

/// Whether every stream that is not empty has a chain in the table for its size.
pub open spec fn streams_have_chains(
    objects: Seq<Allocation>,
    table: Seq<u32>,
    small_table: Seq<u32>,
) -> bool {
    forall|k: int|
        0 <= k < objects.len() && (#[trigger] objects[k]).kind == 2 && objects[k].length > 0 ==> {
            if objects[k].length < SMALL_STREAM_LIMIT {
                starts_chain(small_table, objects[k].start)
            } else {
                starts_chain(table, objects[k].start)
            }
        }
}

/// Whether the given sectors have the given mark in the table.
pub open spec fn are_marked(table: Seq<u32>, ids: Seq<u32>, mark: u32) -> bool {
    forall|k: int|
        0 <= k < ids.len() ==> #[trigger] ids[k] < table.len() && table[ids[k] as int] == mark
}

/// Whether no stream starts within the given sectors.
pub open spec fn streams_start_outside(objects: Seq<Allocation>, ids: Seq<u32>) -> bool {
    forall|k: int|
        0 <= k < objects.len() && is_stream(#[trigger] objects[k], false) ==> !ids.contains(
            objects[k].start,
        )
}

/// Whether the streams that are empty have no chain.
pub open spec fn empty_streams_have_none(objects: Seq<Allocation>) -> bool {
    forall|k: int|
        0 <= k < objects.len() && (#[trigger] objects[k]).kind == 2 && objects[k].length == 0
            ==> objects[k].start == END_OF_CHAIN
}

/// Whether the directory and the small streams with their table lie in chains that are apart from
/// each other and from all streams.
pub open spec fn chains_are_safe(
    raw: Seq<u8>,
    table: Seq<u32>,
    directory: Seq<u32>,
    small_sectors: Seq<u32>,
) -> bool {
    let objects = allocations(raw, directory);
    let root = objects[0];
    &&& are_sectors(raw, directory)
    &&& are_sectors(raw, small_sectors)
    &&& objects.len() > 0
    &&& root.kind == 5
    &&& chain(table, root.start, table.len()) matches Some(sectors) && root.length
        <= sectors.len() * sector_size(raw) && streams_start_outside(
        objects,
        directory + small_sectors + sectors,
    )
    &&& chains_are_apart(
        table,
        head(u32_at(raw, 48)) + head(u32_at(raw, 60)) + head(root.start),
    )
}

/// Whether the streams lie in chains that are apart from each other, and sectors that belong to no
/// chain can be taken for new ones.
pub open spec fn streams_are_sound(
    raw: Seq<u8>,
    table: Seq<u32>,
    directory: Seq<u32>,
    small_sectors: Seq<u32>,
) -> bool {
    let objects = allocations(raw, directory);
    let root = objects[0];
    let small_table = used(words(raw, small_sectors), (root.length / 64) as int);
    &&& followers_are_used(table)
    &&& followers_are_used(small_table)
    &&& streams_have_chains(objects, table, small_table)
    &&& chains_are_apart(
        table,
        head(u32_at(raw, 48)) + head(u32_at(raw, 60)) + head(root.start) + stream_heads(
            objects,
            false,
        ),
    )
    &&& chains_are_apart(small_table, stream_heads(objects, true))
}

/// What is asked of the way in which sectors are shared out.
#[derive(Clone, Copy)]
pub enum Demand {
    /// The directory and the small streams with their table, which are changed with every stream,
    /// have sectors of their own.
    Safe,
    /// Beside that, every stream has sectors of its own, and the tables hold nothing that would
    /// get in the way of new streams.
    Apart,
    /// Beside the first, empty streams have no sectors.
    Tidy,
}

/// Whether the directory and the table of small sectors come to an end, and the chains meet a
/// demand.
pub open spec fn table_fits(raw: Seq<u8>, table: Seq<u32>, demand: Demand) -> bool {
    chain(table, u32_at(raw, 48), table.len()) matches Some(directory) && chain(
        table,
        u32_at(raw, 60),
        table.len(),
    ) matches Some(small_sectors) && chains_are_safe(raw, table, directory, small_sectors) && (
    match demand {
        Demand::Safe => true,
        Demand::Apart => streams_are_sound(raw, table, directory, small_sectors),
        Demand::Tidy => empty_streams_have_none(allocations(raw, directory)),
    })
}

/// Whether the list in the header of the sectors that hold the table of sectors has nothing behind
/// its end.
pub open spec fn list_ends(raw: Seq<u8>) -> bool {
    forall|index: int|
        listed_from(raw, 0).len() <= index < 109 ==> #[trigger] u32_at(raw, 76 + 4 * index)
            == FREE_SECTOR
}

/// Whether the sectors that hold the table of sectors are listed once and marked as such, and the
/// table meets a demand.
pub open spec fn lists_fit(raw: Seq<u8>, list: Seq<u32>, demand: Demand) -> bool {
    let ids = listed(raw, list);
    let table = used(words(raw, ids), sector_count(raw));
    &&& list.len() > 0 ==> listed_from(raw, 0).len() == 109
    &&& ids.no_duplicates()
    &&& are_sectors(raw, ids)
    &&& are_marked(table, list, DIFAT_SECTOR)
    &&& are_marked(table, ids, FAT_SECTOR)
    &&& demand is Apart ==> list_ends(raw) && can_be_extended(raw, words(raw, ids))
    &&& table_fits(raw, table, demand)
}

/// Whether the way in which sectors are shared out meets a demand.
pub open spec fn layout_fits(raw: Seq<u8>, demand: Demand) -> bool {
    &&& has_header(raw)
    &&& list_sectors(raw, u32_at(raw, 68), sector_count(raw) as nat) matches Some(list)
        && lists_fit(raw, list, demand)
}

/// Whether the directory and the small streams with their table, which are changed with every
/// stream, have sectors of their own.
#[verifier::opaque]
pub open spec fn layout_is_safe(raw: Seq<u8>) -> bool {
    layout_fits(raw, Demand::Safe)
}

/// Whether, beside that, every stream of a compound file has sectors of its own, and its tables
/// hold nothing that would get in the way of new streams.
#[verifier::opaque]
pub open spec fn layout_is_apart(raw: Seq<u8>) -> bool {
    layout_fits(raw, Demand::Apart)
}

/// Whether the layout of a compound file is safe, and empty streams have no sectors.
#[verifier::opaque]
pub open spec fn layout_is_tidy(raw: Seq<u8>) -> bool {
    layout_fits(raw, Demand::Tidy)
}

/// The length up to which a compound file can grow: all lengths in it have to fit their fields, and
/// all sectors have to have numbers.
pub open spec fn format_limit(raw: Seq<u8>) -> int {
    if sector_size(raw) == 512 {
        0xffff_ffff
    } else {
        0xfff_ffff_b000
    }
}

/// What is known of the layout of a compound file.
#[derive(Clone, Copy)]
pub struct Layout {
    /// Whether the layout is known to be safe.
    pub safe: bool,
    /// Whether every stream is known to have sectors of its own.
    pub apart: bool,
    /// Whether empty streams are known to have no sectors.
    pub tidy: bool,
    /// A length that the file is not longer than.
    pub length: u64,
    /// A length up to which the file can grow.
    pub limit: u64,
}

/// What is known of the layout of a compound file from its bytes.
pub open spec fn layout_of(raw: Seq<u8>) -> Layout {
    Layout {
        safe: layout_is_safe(raw),
        apart: layout_is_apart(raw),
        tidy: layout_is_tidy(raw),
        length: raw.len() as u64,
        limit: format_limit(raw) as u64,
    }
}

/// How much longer a compound file becomes at most by a new stream.
pub open spec fn growth(length: nat) -> nat {
    2 * length + 0x1_0000
}

/// What is known of the layout of a compound file after a stream of the given length was written.
pub open spec fn layout_after(layout: Layout, length: nat) -> Layout {
    let keeps = layout.apart && layout.length + growth(length) <= layout.limit;
    Layout {
        safe: keeps,
        apart: keeps,
        length: if keeps {
            (layout.length + growth(length)) as u64
        } else {
            layout.length
        },
        ..layout
    }
}

/// Where every stream has sectors of its own, the directory and the small streams with their table
/// have, too; and so they have where empty streams are known to have none.
pub proof fn lemma_layout_is_safe(raw: Seq<u8>)
    ensures
        layout_is_apart(raw) ==> layout_is_safe(raw),
        layout_is_tidy(raw) ==> layout_is_safe(raw),
{
    reveal(layout_is_safe);
    reveal(layout_is_apart);
    reveal(layout_is_tidy);
}

/// A sector lies within the file.
proof fn lemma_sector_is_in_file(raw: Seq<u8>, id: u32)
    requires
        has_header(raw),
        id < whole_count(raw),
    ensures
        sector_size(raw) <= sector_at(raw, id),
        sector_at(raw, id) + sector_size(raw) <= raw.len(),
        id + 1 <= raw.len(),
{
    if sector_size(raw) == 512 {
        assert(sector_at(raw, id) == (id + 1) * 512);
    } else {
        assert(sector_at(raw, id) == (id + 1) * 4096);
    }
}

/// Reads the 16-bit integer at a position.
fn read_u16(raw: &[u8], at: usize) -> (value: u16)
    requires
        at + 2 <= raw@.len(),
    ensures
        value == u16_at(raw@, at as int),
{
    raw[at] as u16 + 0x100 * (raw[at + 1] as u16)
}

/// Reads the 32-bit integer at a position.
fn read_u32(raw: &[u8], at: usize) -> (value: u32)
    requires
        at + 4 <= raw@.len(),
    ensures
        value == u32_at(raw@, at as int),
{
    raw[at] as u32 + 0x100 * (raw[at + 1] as u32) + 0x1_0000 * (raw[at + 2] as u32) + 0x100_0000
        * (raw[at + 3] as u32)
}

/// Reads the 32-bit integers in the given sectors.
fn read_words(raw: &[u8], ids: &Vec<u32>, size: usize) -> (found: Vec<u32>)
    requires
        has_header(raw@),
        size == sector_size(raw@),
        are_sectors(raw@, ids@),
    ensures
        found@ == words(raw@, ids@),
{
    let length: usize = raw.len();
    let mut found: Vec<u32> = Vec::new();
    let mut k: usize = 0;
    assert(ids@.take(0) == Seq::<u32>::empty());
    while k < ids.len()
        invariant
            k <= ids.len(),
            length == raw@.len(),
            has_header(raw@),
            size == sector_size(raw@),
            are_sectors(raw@, ids@),
            found@ == words(raw@, ids@.take(k as int)),
        decreases ids.len() - k,
    {
        let id: u32 = ids[k];
        proof {
            lemma_sector_is_in_file(raw@, id);
        }
        let at: usize = (id as usize + 1) * size;
        let ghost before = found@;
        let mut j: usize = 0;
        while j < size / 4
            invariant
                j <= size / 4,
                size == 512 || size == 4096,
                length == raw@.len(),
                at + size <= length,
                found@ == before + words_at(raw@, at as int, j as int),
            decreases size / 4 - j,
        {
            found.push(read_u32(raw, at + 4 * j));
            j = j + 1;
            assert(found@ == before + words_at(raw@, at as int, j as int));
        }
        assert(ids@.take(k + 1).drop_last() == ids@.take(k as int));
        k = k + 1;
    }
    assert(ids@.take(k as int) == ids@);
    found
}

/// Reads what the directory in the given sectors says.
fn read_allocations(raw: &[u8], ids: &Vec<u32>, size: usize) -> (found: Vec<Allocation>)
    requires
        has_header(raw@),
        size == sector_size(raw@),
        are_sectors(raw@, ids@),
    ensures
        found@ == allocations(raw@, ids@),
{
    let length: usize = raw.len();
    let version: u16 = read_u16(raw, 26);
    let mut found: Vec<Allocation> = Vec::new();
    let mut k: usize = 0;
    assert(ids@.take(0) == Seq::<u32>::empty());
    while k < ids.len()
        invariant
            k <= ids.len(),
            length == raw@.len(),
            has_header(raw@),
            version == u16_at(raw@, 26),
            size == sector_size(raw@),
            are_sectors(raw@, ids@),
            found@ == allocations(raw@, ids@.take(k as int)),
        decreases ids.len() - k,
    {
        let id: u32 = ids[k];
        proof {
            lemma_sector_is_in_file(raw@, id);
        }
        let sector: usize = (id as usize + 1) * size;
        let ghost before = found@;
        let mut j: usize = 0;
        while j < size / 128
            invariant
                j <= size / 128,
                size == 512 || size == 4096,
                length == raw@.len(),
                sector + size <= length,
                version == u16_at(raw@, 26),
                found@ == before + Seq::new(
                    j as nat,
                    |n: int| allocation_at(raw@, sector + 128 * n),
                ),
            decreases size / 128 - j,
        {
            let at: usize = sector + 128 * j;
            let low: u32 = read_u32(raw, at + 120);
            let high: u32 = read_u32(raw, at + 124);
            let length: u64 = if version == 3 {
                low as u64
            } else {
                low as u64 + 0x1_0000_0000 * (high as u64)
            };
            found.push(Allocation { kind: raw[at + 66], start: read_u32(raw, at + 116), length });
            j = j + 1;
            assert(found@ == before + Seq::new(
                j as nat,
                |n: int| allocation_at(raw@, sector + 128 * n),
            ));
        }
        assert(ids@.take(k + 1).drop_last() == ids@.take(k as int));
        k = k + 1;
    }
    assert(ids@.take(k as int) == ids@);
    found
}

/// Reads the numbers of the sectors that hold the table of sectors.
fn read_listed(raw: &[u8]) -> (ids: Vec<u32>)
    requires
        raw@.len() >= 512,
    ensures
        ids@ == listed_from(raw@, 0),
{
    let mut ids: Vec<u32> = Vec::new();
    let mut index: usize = 0;
    while index < 109 && read_u32(raw, 76 + 4 * index) != FREE_SECTOR
        invariant
            index <= 109,
            raw@.len() >= 512,
            ids@ + listed_from(raw@, index as int) == listed_from(raw@, 0),
        decreases 109 - index,
    {
        let ghost before = ids@;
        let id: u32 = read_u32(raw, 76 + 4 * index);
        ids.push(id);
        index = index + 1;
        assert(ids@ + listed_from(raw@, index as int) == before + (seq![id] + listed_from(
            raw@,
            index as int,
        )));
    }
    ids
}

/// Follows the sectors that continue the list in the header.
fn follow_list(
    raw: &[u8],
    start: u32,
    size: usize,
    whole: usize,
    count: usize,
) -> (found: Option<Vec<u32>>)
    requires
        has_header(raw@),
        size == sector_size(raw@),
        whole == whole_count(raw@),
        count == sector_count(raw@),
    ensures
        match found {
            Some(ids) => list_sectors(raw@, start, count as nat) == Some(ids@) && are_sectors(
                raw@,
                ids@,
            ),
            None => list_sectors(raw@, start, count as nat) is None,
        },
{
    let length: usize = raw.len();
    let mut ids: Vec<u32> = Vec::new();
    let mut current: u32 = start;
    let mut left: usize = count;
    while current != END_OF_CHAIN && current != FREE_SECTOR
        invariant
            length == raw@.len(),
            has_header(raw@),
            size == sector_size(raw@),
            whole == whole_count(raw@),
            count == sector_count(raw@),
            are_sectors(raw@, ids@),
            match list_sectors(raw@, current, left as nat) {
                Some(rest) => list_sectors(raw@, start, count as nat) == Some(ids@ + rest),
                None => list_sectors(raw@, start, count as nat) is None,
            },
        decreases left,
    {
        if left == 0 || current as usize >= whole {
            return None;
        }
        proof {
            lemma_sector_is_in_file(raw@, current);
        }
        let next: u32 = read_u32(raw, (current as usize + 1) * size + (size - 4));
        let ghost before = ids@;
        let ghost rest = list_sectors(raw@, next, (left - 1) as nat);
        ids.push(current);
        assert(rest is Some ==> before + (seq![current] + rest->0) == ids@ + rest->0);
        current = next;
        left = left - 1;
    }
    Some(ids)
}

/// Reads the list in the given sectors.
fn read_list(raw: &[u8], ids: &Vec<u32>, size: usize) -> (found: Vec<u32>)
    requires
        has_header(raw@),
        size == sector_size(raw@),
        are_sectors(raw@, ids@),
    ensures
        found@ == list_entries(raw@, ids@),
{
    let length: usize = raw.len();
    let mut found: Vec<u32> = Vec::new();
    let mut k: usize = 0;
    assert(ids@.take(0) == Seq::<u32>::empty());
    while k < ids.len()
        invariant
            k <= ids.len(),
            length == raw@.len(),
            has_header(raw@),
            size == sector_size(raw@),
            are_sectors(raw@, ids@),
            found@ == list_entries(raw@, ids@.take(k as int)),
        decreases ids.len() - k,
    {
        let id: u32 = ids[k];
        proof {
            lemma_sector_is_in_file(raw@, id);
        }
        let at: usize = (id as usize + 1) * size;
        let ghost before = found@;
        let mut j: usize = 0;
        while j < size / 4 - 1
            invariant
                j <= size / 4 - 1,
                size == 512 || size == 4096,
                length == raw@.len(),
                at + size <= length,
                found@ == before + words_at(raw@, at as int, j as int),
            decreases size / 4 - 1 - j,
        {
            found.push(read_u32(raw, at + 4 * j));
            j = j + 1;
            assert(found@ == before + words_at(raw@, at as int, j as int));
        }
        assert(ids@.take(k + 1).drop_last() == ids@.take(k as int));
        k = k + 1;
    }
    assert(ids@.take(k as int) == ids@);
    found
}

/// Drops the entries of a list behind the last that is in use.
fn trim(entries: &mut Vec<u32>)
    ensures
        final(entries)@ == trimmed(old(entries)@),
{
    let ghost target = trimmed(entries@);
    while entries.len() > 0 && entries[entries.len() - 1] == FREE_SECTOR
        invariant
            trimmed(entries@) == target,
        decreases entries@.len(),
    {
        entries.pop();
    }
}

/// Follows a chain.
fn follow(table: &Vec<u32>, start: u32) -> (found: Option<Vec<u32>>)
    ensures
        match found {
            Some(ids) => chain(table@, start, table@.len()) == Some(ids@),
            None => chain(table@, start, table@.len()) is None,
        },
{
    let mut ids: Vec<u32> = Vec::new();
    let mut current: u32 = start;
    let mut left: usize = table.len();
    while current != END_OF_CHAIN
        invariant
            match chain(table@, current, left as nat) {
                Some(rest) => chain(table@, start, table@.len()) == Some(ids@ + rest),
                None => chain(table@, start, table@.len()) is None,
            },
        decreases left,
    {
        if left == 0 || current as usize >= table.len() {
            return None;
        }
        let ghost before = ids@;
        let ghost rest = chain(table@, table@[current as int], (left - 1) as nat);
        ids.push(current);
        assert(rest is Some ==> before + (seq![current] + rest->0) == ids@ + rest->0);
        current = table[current as usize];
        left = left - 1;
    }
    Some(ids)
}

/// Whether all numbers are different and below a limit.
fn check_distinct(ids: &Vec<u32>, limit: usize) -> (sound: bool)
    ensures
        sound == (ids@.no_duplicates() && forall|k: int|
            0 <= k < ids@.len() ==> #[trigger] ids@[k] < limit),
{
    let mut seen: Vec<bool> = vec![false; limit];
    let mut k: usize = 0;
    while k < ids.len()
        invariant
            k <= ids.len(),
            seen@.len() == limit,
            forall|i: int, j: int| 0 <= i < j < k ==> #[trigger] ids@[i] != #[trigger] ids@[j],
            forall|j: int| 0 <= j < k ==> #[trigger] ids@[j] < limit && seen@[ids@[j] as int],
            forall|n: int|
                0 <= n < limit && #[trigger] seen@[n] ==> exists|j: int|
                    0 <= j < k && ids@[j] == n,
        decreases ids.len() - k,
    {
        let id: usize = ids[k] as usize;
        if id >= limit {
            return false;
        }
        if seen[id] {
            proof {
                let j = choose|j: int| 0 <= j < k && ids@[j] == id;
                assert(ids@[j] == ids@[k as int]);
            }
            return false;
        }
        let ghost before = seen@;
        seen.set(id, true);
        assert forall|n: int| 0 <= n < limit && #[trigger] seen@[n] implies exists|j: int|
            0 <= j < k + 1 && ids@[j] == n by {
            if n == id {
                assert(ids@[k as int] == n);
            } else {
                assert(before[n]);
                let j = choose|j: int| 0 <= j < k && ids@[j] == n;
                assert(ids@[j] == n);
            }
        }
        k = k + 1;
    }
    true
}

/// Whether the chains with the given starts share no sector.
fn check_apart(table: &Vec<u32>, heads: Vec<u32>) -> (sound: bool)
    ensures
        sound == chains_are_apart(table@, heads@),
{
    let mut reached: Vec<u32> = heads;
    let mut k: usize = 0;
    assert(table@.take(0) == Seq::<u32>::empty());
    assert(heads@ + followers(table@.take(0)) == heads@);
    while k < table.len()
        invariant
            k <= table.len(),
            reached@ == heads@ + followers(table@.take(k as int)),
        decreases table.len() - k,
    {
        let ghost before = followers(table@.take(k as int));
        assert(table@.take(k + 1).drop_last() == table@.take(k as int));
        if table[k] <= MAX_SECTOR {
            reached.push(table[k]);
            assert(reached@ == heads@ + before.push(table@[k as int]));
        }
        k = k + 1;
    }
    assert(table@.take(k as int) == table@);
    check_distinct(&reached, table.len())
}

/// Collects the starts of the chains of the small streams, or of the others.
fn collect_heads(objects: &Vec<Allocation>, small: bool) -> (heads: Vec<u32>)
    ensures
        heads@ == stream_heads(objects@, small),
{
    let mut heads: Vec<u32> = Vec::new();
    let mut k: usize = 0;
    assert(objects@.take(0) == Seq::<Allocation>::empty());
    while k < objects.len()
        invariant
            k <= objects.len(),
            heads@ == stream_heads(objects@.take(k as int), small),
        decreases objects.len() - k,
    {
        let object = &objects[k];
        if object.kind == 2 && object.length > 0 && (object.length < SMALL_STREAM_LIMIT) == small {
            heads.push(object.start);
        }
        assert(objects@.take(k + 1).drop_last() == objects@.take(k as int));
        k = k + 1;
    }
    assert(objects@.take(k as int) == objects@);
    heads
}

/// Whether every stream that is not empty has a chain in the table for its size.
fn check_streams(objects: &Vec<Allocation>, table: &Vec<u32>, small_table: &Vec<u32>) -> (sound:
    bool)
    ensures
        sound == streams_have_chains(objects@, table@, small_table@),
{
    let mut k: usize = 0;
    while k < objects.len()
        invariant
            k <= objects.len(),
            streams_have_chains(objects@.take(k as int), table@, small_table@),
        decreases objects.len() - k,
    {
        let object = &objects[k];
        let ghost prefix = objects@.take(k + 1);
        assert(prefix[k as int] == objects@[k as int]);
        assert(forall|j: int| 0 <= j < k ==> #[trigger] prefix[j] == objects@.take(k as int)[j]);
        if object.kind == 2 && object.length > 0 {
            let sound: bool = if object.length < SMALL_STREAM_LIMIT {
                follow(small_table, object.start).is_some()
            } else {
                follow(table, object.start).is_some()
            };
            if !sound {
                assert(objects@[k as int].kind == 2);
                return false;
            }
        }
        k = k + 1;
    }
    assert(objects@.take(k as int) == objects@);
    true
}

/// Whether the given sectors have the given mark in the table.
fn check_marked(table: &Vec<u32>, ids: &Vec<u32>, mark: u32) -> (sound: bool)
    ensures
        sound == are_marked(table@, ids@, mark),
{
    let mut k: usize = 0;
    while k < ids.len()
        invariant
            k <= ids.len(),
            forall|j: int|
                0 <= j < k ==> #[trigger] ids@[j] < table@.len() && table@[ids@[j] as int] == mark,
        decreases ids.len() - k,
    {
        let id: usize = ids[k] as usize;
        if id >= table.len() || table[id] != mark {
            assert(!(ids@[k as int] < table@.len() && table@[ids@[k as int] as int] == mark));
            return false;
        }
        k = k + 1;
    }
    true
}

/// Appends the start of a chain, if there is one.
fn push_head(heads: &mut Vec<u32>, start: u32)
    ensures
        final(heads)@ == old(heads)@ + head(start),
{
    if start != END_OF_CHAIN {
        heads.push(start);
    }
}

/// The sectors of a chain are those of the table, and not more than it allows.
proof fn lemma_chain_is_in_table(table: Seq<u32>, start: u32, limit: nat)
    ensures
        chain(table, start, limit) matches Some(ids) ==> {
            &&& ids.len() <= limit
            &&& forall|k: int| 0 <= k < ids.len() ==> #[trigger] ids[k] < table.len()
        },
    decreases limit,
{
    if start != END_OF_CHAIN && limit > 0 && start < table.len() {
        lemma_chain_is_in_table(table, table[start as int], (limit - 1) as nat);
    }
}

/// Whether no stream starts within the given sectors.
fn check_outside(objects: &Vec<Allocation>, ids: &Vec<u32>) -> (sound: bool)
    ensures
        sound == streams_start_outside(objects@, ids@),
{
    let mut k: usize = 0;
    while k < objects.len()
        invariant
            k <= objects.len(),
            forall|j: int|
                0 <= j < k && is_stream(#[trigger] objects@[j], false) ==> !ids@.contains(
                    objects@[j].start,
                ),
        decreases objects.len() - k,
    {
        let object = &objects[k];
        if object.kind == 2 && object.length >= SMALL_STREAM_LIMIT {
            let mut j: usize = 0;
            while j < ids.len()
                invariant
                    k < objects.len(),
                    *object == objects@[k as int],
                    is_stream(*object, false),
                    j <= ids.len(),
                    forall|i: int| 0 <= i < j ==> #[trigger] ids@[i] != object.start,
                decreases ids.len() - j,
            {
                if ids[j] == object.start {
                    assert(ids@[j as int] == objects@[k as int].start);
                    return false;
                }
                j = j + 1;
            }
        }
        k = k + 1;
    }
    true
}

/// Whether the streams that are empty have no chain.
fn check_empty(objects: &Vec<Allocation>) -> (sound: bool)
    ensures
        sound == empty_streams_have_none(objects@),
{
    let mut k: usize = 0;
    while k < objects.len()
        invariant
            k <= objects.len(),
            forall|j: int|
                0 <= j < k && (#[trigger] objects@[j]).kind == 2 && objects@[j].length == 0
                    ==> objects@[j].start == END_OF_CHAIN,
        decreases objects.len() - k,
    {
        let object = &objects[k];
        if object.kind == 2 && object.length == 0 && object.start != END_OF_CHAIN {
            assert(objects@[k as int].kind == 2);
            return false;
        }
        k = k + 1;
    }
    true
}

/// Whether there are whole sectors with the given numbers.
fn check_whole(ids: &Vec<u32>, whole: usize) -> (sound: bool)
    ensures
        sound == forall|k: int| 0 <= k < ids@.len() ==> #[trigger] ids@[k] < whole,
{
    let mut k: usize = 0;
    while k < ids.len()
        invariant
            k <= ids.len(),
            forall|j: int| 0 <= j < k ==> #[trigger] ids@[j] < whole,
        decreases ids.len() - k,
    {
        if ids[k] as usize >= whole {
            assert(ids@[k as int] >= whole);
            return false;
        }
        k = k + 1;
    }
    true
}

/// Whether no sector is followed by one that belongs to no chain.
fn check_followers(table: &Vec<u32>) -> (sound: bool)
    ensures
        sound == followers_are_used(table@),
{
    let mut k: usize = 0;
    while k < table.len()
        invariant
            k <= table.len(),
            forall|j: int|
                0 <= j < k && (#[trigger] table@[j]) < table@.len() ==> table@[table@[j] as int]
                    != FREE_SECTOR,
        decreases table.len() - k,
    {
        let next: usize = table[k] as usize;
        if next < table.len() && table[next] == FREE_SECTOR {
            assert(table@[k as int] < table@.len());
            return false;
        }
        k = k + 1;
    }
    true
}

/// Whether what stands in a table behind the part that is in use belongs to no chain.
fn check_free_behind(table: &Vec<u32>, count: usize) -> (sound: bool)
    ensures
        sound == is_free_behind(table@, count as int),
{
    let mut k: usize = count;
    while k < table.len()
        invariant
            count <= k,
            forall|j: int| count <= j < k && j < table@.len() ==> #[trigger] table@[j]
                == FREE_SECTOR,
        decreases table.len() - k,
    {
        if table[k] != FREE_SECTOR {
            assert(table@[k as int] != FREE_SECTOR);
            return false;
        }
        k = k + 1;
    }
    true
}

/// Whether, from a position on, a sector that is in use holds part of the table of sectors.
fn check_marked_from(table: &Vec<u32>, start: usize, count: usize) -> (marked: bool)
    ensures
        marked == is_marked_from(table@, start as int, count as int),
{
    let mut k: usize = start;
    while k < count && k < table.len()
        invariant
            start <= k,
            forall|j: int|
                start <= j < k && j < count && j < table@.len() ==> #[trigger] table@[j]
                    != FAT_SECTOR,
        decreases table.len() - k,
    {
        if table[k] == FAT_SECTOR {
            assert(table@[k as int] == FAT_SECTOR);
            return true;
        }
        k = k + 1;
    }
    false
}

/// Whether the list in the header of the sectors that hold the table of sectors has nothing behind
/// its end.
fn check_list_ends(raw: &[u8], count: usize) -> (sound: bool)
    requires
        raw@.len() >= 512,
        count == listed_from(raw@, 0).len(),
    ensures
        sound == list_ends(raw@),
{
    let mut index: usize = count;
    while index < 109
        invariant
            raw@.len() >= 512,
            count == listed_from(raw@, 0).len(),
            count <= index,
            forall|j: int|
                count <= j < index && j < 109 ==> #[trigger] u32_at(raw@, 76 + 4 * j)
                    == FREE_SECTOR,
        decreases 109 - index,
    {
        if read_u32(raw, 76 + 4 * index) != FREE_SECTOR {
            assert(u32_at(raw@, 76 + 4 * (index as int)) != FREE_SECTOR);
            return false;
        }
        index = index + 1;
    }
    true
}

/// Collects the starts of the chains of the directory, of the table of small sectors and of the
/// small streams.
fn collect_shared_heads(raw: &[u8], root: &Allocation) -> (heads: Vec<u32>)
    requires
        raw@.len() >= 512,
    ensures
        heads@ == head(u32_at(raw@, 48)) + head(u32_at(raw@, 60)) + head(root.start),
{
    let mut heads: Vec<u32> = Vec::new();
    push_head(&mut heads, read_u32(raw, 48));
    push_head(&mut heads, read_u32(raw, 60));
    push_head(&mut heads, root.start);
    assert(heads@ == head(u32_at(raw@, 48)) + head(u32_at(raw@, 60)) + head(root.start));
    heads
}

/// Whether the streams lie in chains that are apart from each other, and sectors that belong to no
/// chain can be taken for new ones.
fn check_all_streams(
    raw: &[u8],
    table: &Vec<u32>,
    objects: &Vec<Allocation>,
    directory: &Vec<u32>,
    small_sectors: &Vec<u32>,
    size: usize,
) -> (sound: bool)
    requires
        has_header(raw@),
        size == sector_size(raw@),
        are_sectors(raw@, small_sectors@),
        objects@ == allocations(raw@, directory@),
        objects@.len() > 0,
    ensures
        sound == streams_are_sound(raw@, table@, directory@, small_sectors@),
{
    let root = &objects[0];
    let mut small_table = read_words(raw, small_sectors, size);
    let small_count: u64 = root.length / 64;
    if small_table.len() as u64 > small_count {
        small_table.truncate(small_count as usize);
    }
    if !check_followers(table) || !check_followers(&small_table) {
        return false;
    }
    let mut heads = collect_shared_heads(raw, root);
    let mut others = collect_heads(objects, false);
    heads.append(&mut others);
    check_streams(objects, table, &small_table) && check_apart(table, heads) && check_apart(
        &small_table,
        collect_heads(objects, true),
    )
}

/// Whether the directory and the small streams with their table lie in chains that are apart from
/// each other and from all streams, and the chains of streams meet a demand.
fn check_chains(
    raw: &[u8],
    table: &Vec<u32>,
    directory: &Vec<u32>,
    small_sectors: &Vec<u32>,
    size: usize,
    whole: usize,
    demand: Demand,
) -> (sound: bool)
    requires
        has_header(raw@),
        size == sector_size(raw@),
        whole == whole_count(raw@),
        table@.len() <= sector_count(raw@),
    ensures
        sound == (chains_are_safe(raw@, table@, directory@, small_sectors@) && (match demand {
            Demand::Safe => true,
            Demand::Apart => streams_are_sound(raw@, table@, directory@, small_sectors@),
            Demand::Tidy => empty_streams_have_none(allocations(raw@, directory@)),
        })),
{
    let length: usize = raw.len();
    if !check_whole(directory, whole) || !check_whole(small_sectors, whole) {
        return false;
    }
    let objects = read_allocations(raw, directory, size);
    if objects.len() == 0 || objects[0].kind != 5 {
        return false;
    }
    let root = objects[0];
    proof {
        lemma_chain_is_in_table(table@, root.start, table@.len());
    }
    match follow(table, root.start) {
        Some(sectors) => {
            assert(sectors@.len() * sector_size(raw@) <= length) by {
                if sector_size(raw@) == 512 {
                    assert(sectors@.len() * 512 <= length);
                } else {
                    assert(sectors@.len() * 4096 <= length);
                }
            }
            let room: usize = sectors.len() * size;
            if root.length > room as u64 {
                return false;
            }
            let mut shared: Vec<u32> = Vec::new();
            shared.extend_from_slice(directory);
            shared.extend_from_slice(small_sectors);
            shared.extend_from_slice(&sectors);
            assert(shared@ == directory@ + small_sectors@ + sectors@);
            if !check_outside(&objects, &shared) {
                return false;
            }
        },
        None => {
            return false;
        },
    }
    if !check_apart(table, collect_shared_heads(raw, &root)) {
        return false;
    }
    match demand {
        Demand::Safe => true,
        Demand::Apart => check_all_streams(raw, table, &objects, directory, small_sectors, size),
        Demand::Tidy => check_empty(&objects),
    }
}

/// Whether the directory and the table of small sectors come to an end, and the chains meet a
/// demand.
fn check_table(
    raw: &[u8],
    table: &Vec<u32>,
    size: usize,
    whole: usize,
    demand: Demand,
) -> (sound: bool)
    requires
        has_header(raw@),
        size == sector_size(raw@),
        whole == whole_count(raw@),
        table@.len() <= sector_count(raw@),
    ensures
        sound == table_fits(raw@, table@, demand),
{
    match (follow(table, read_u32(raw, 48)), follow(table, read_u32(raw, 60))) {
        (Some(directory), Some(small_sectors)) => check_chains(
            raw,
            table,
            &directory,
            &small_sectors,
            size,
            whole,
            demand,
        ),
        _ => false,
    }
}

/// Whether the way in which sectors are shared out meets a demand.
fn check_layout(raw: &[u8], demand: Demand) -> (sound: bool)
    ensures
        sound == layout_fits(raw@, demand),
{
    if raw.len() < 512 {
        return false;
    }
    let size: usize = if read_u16(raw, 26) == 3 {
        512
    } else {
        4096
    };
    if raw.len() < size {
        return false;
    }
    let whole: usize = raw.len() / size - 1;
    let count: usize = if raw.len() % size == 0 {
        whole
    } else {
        whole + 1
    };
    let list = match follow_list(raw, read_u32(raw, 68), size, whole, count) {
        Some(list) => list,
        None => {
            return false;
        },
    };
    let mut ids = read_listed(raw);
    if list.len() > 0 && ids.len() != 109 {
        return false;
    }
    let ends: bool = check_list_ends(raw, ids.len());
    let mut further = read_list(raw, &list, size);
    trim(&mut further);
    ids.append(&mut further);
    if !check_distinct(&ids, whole) {
        return false;
    }
    let mut table = read_words(raw, &ids, size);
    let extends: bool = check_free_behind(&table, count) || table.len() >= size / 4
        && check_marked_from(&table, table.len() - size / 4, count);
    if table.len() > count {
        table.truncate(count);
    }
    if !check_marked(&table, &list, DIFAT_SECTOR) || !check_marked(&table, &ids, FAT_SECTOR) {
        return false;
    }
    let sound: bool = match demand {
        Demand::Apart => ends && extends,
        _ => true,
    };
    sound && check_table(raw, &table, size, whole, demand)
}

/// Whether the directory and the small streams with their table, which are changed with every
/// stream, have sectors of their own.
pub fn has_safe_layout(raw: &[u8]) -> (safe: bool)
    ensures
        safe == layout_is_safe(raw@),
{
    proof {
        reveal(layout_is_safe);
    }
    check_layout(raw, Demand::Safe)
}

/// Whether, beside that, every stream of a compound file has sectors of its own, and its tables
/// hold nothing that would get in the way of new streams.
pub fn has_apart_layout(raw: &[u8]) -> (apart: bool)
    ensures
        apart == layout_is_apart(raw@),
{
    proof {
        reveal(layout_is_apart);
    }
    check_layout(raw, Demand::Apart)
}

/// Whether the layout of a compound file is safe, and empty streams have no sectors.
pub fn has_tidy_layout(raw: &[u8]) -> (tidy: bool)
    ensures
        tidy == layout_is_tidy(raw@),
{
    proof {
        reveal(layout_is_tidy);
    }
    check_layout(raw, Demand::Tidy)
}

/// Finds what is known of the layout of a compound file from its bytes.
pub fn find_layout(raw: &[u8]) -> (layout: Layout)
    requires
        raw@.len() >= 512,
    ensures
        layout == layout_of(raw@),
{
    Layout {
        safe: has_safe_layout(raw),
        apart: has_apart_layout(raw),
        tidy: has_tidy_layout(raw),
        length: raw.len() as u64,
        limit: if read_u16(raw, 26) == 3 {
            0xffff_ffff
        } else {
            0xfff_ffff_b000
        },
    }
}

/// Finds what is known of the layout of a compound file after a stream of the given length was
/// written.
pub fn find_layout_after(layout: &Layout, length: usize) -> (after: Layout)
    ensures
        after == layout_after(*layout, length as nat),
{
    let grown: u128 = layout.length as u128 + 2 * (length as u128) + 0x1_0000;
    if layout.apart && grown <= layout.limit as u128 {
        Layout { safe: true, apart: true, length: grown as u64, ..*layout }
    } else {
        Layout { safe: false, apart: false, ..*layout }
    }
}

} // verus!
