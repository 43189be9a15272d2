//! The compound file that holds the streams of a project.

use std::cell::RefCell;
use std::io::Cursor;

use cfb::CompoundFile;
use vstd::prelude::*;

use crate::layout::{
    format_limit, growth, layout_is_apart, layout_is_safe, layout_is_tidy, sector_size,
    whole_sectors,
};
use crate::place::same_place;

verus! {

/// A cell whose contents can be borrowed for a change.
///
/// Declares `std::cell::RefCell`; nothing is claimed of what is inside.
#[verifier::external_type_specification]
#[verifier::external_body]
#[verifier::reject_recursive_types(T)]
pub struct ExRefCell<T: ?Sized>(std::cell::RefCell<T>);

/// Bytes in memory that are read and written like a file.
///
/// Declares `std::io::Cursor`; nothing is claimed of what is inside.
#[verifier::external_type_specification]
#[verifier::external_body]
#[verifier::reject_recursive_types(T)]
pub struct ExCursor<T>(std::io::Cursor<T>);

/// A compound file.
///
/// Declares `cfb::CompoundFile`; what is inside is spoken of through [`compound_view`].
#[verifier::external_type_specification]
#[verifier::external_body]
#[verifier::reject_recursive_types(F)]
pub struct ExCompoundFile<F>(cfb::CompoundFile<F>);

/// What a compound file holds.
///
/// An entry can be denoted by many paths, which differ in the case of letters or go up and down
/// the storages. All of them are keys here. Names in a path are separated by slashes alone, as on
/// Unix.
pub struct CompoundView {
    /// The contents of each stream that can be read.
    pub streams: Map<Seq<char>, Seq<u8>>,
    /// The name of the storage or stream at each path at which there is one, as it is stored.
    pub names: Map<Seq<char>, Seq<char>>,
    /// The paths that end with a name that a stream can have, behind the path of a storage.
    pub nameable: Set<Seq<char>>,
    /// The name and the path of each storage and stream, from the root down.
    pub entries: Seq<(Seq<char>, Seq<char>)>,
    /// The bytes that the file consists of.
    pub bytes: Seq<u8>,
    /// Whether the directory and the small streams with their table have sectors of their own.
    pub safe: bool,
    /// Whether, beside that, every stream has sectors of its own, and the tables hold nothing that
    /// would get in the way of new streams.
    pub apart: bool,
    /// Whether empty streams have no sectors.
    pub tidy: bool,
}

/// Whether the directory is in order: everything that it lists is found at its path under its
/// name, and nothing is listed at two places under the same path.
///
/// What a storage holds is kept in a tree that is searched by name. If everything in the tree is
/// found, then it is ordered by name throughout, and no name occurs twice.
pub open spec fn directory_is_ordered(file: CompoundView) -> bool {
    &&& forall|k: int|
        0 <= k < file.entries.len() ==> file.names.contains_pair(
            (#[trigger] file.entries[k]).1,
            file.entries[k].0,
        )
    &&& forall|i: int, j: int|
        0 <= i < j < file.entries.len() ==> (#[trigger] file.entries[i]).1 != (
        #[trigger] file.entries[j]).1
}

/// Whether the stream at a path, which can be read, can be removed.
///
/// An empty stream that is said to have sectors might take those of others along.
pub open spec fn is_removable(file: CompoundView, path: Seq<char>) -> bool {
    &&& file.streams.contains_key(path)
    &&& file.apart && file.tidy || (file.safe || file.apart) && directory_is_ordered(file)
    &&& file.tidy || file.streams[path].len() > 0
}

/// Whether the format can express the lengths in a compound file when a stream of the given length
/// is added.
pub open spec fn has_room(file: CompoundView, length: nat) -> bool {
    file.bytes.len() + growth(length) <= format_limit(file.bytes)
}

/// Whether streams can be removed and created without harm to others: every stream has sectors of
/// its own, and the directory is in order.
pub open spec fn is_sound(file: CompoundView) -> bool {
    file.apart && directory_is_ordered(file)
}

/// What a compound file in memory holds.
pub uninterp spec fn compound_view(
    container: RefCell<CompoundFile<Cursor<Vec<u8>>>>,
) -> CompoundView;

/// What the compound file holds that consists of the given bytes, if `cfb::CompoundFile::open`
/// accepts them.
pub uninterp spec fn opened_view(raw: Seq<u8>) -> Option<CompoundView>;

/// Whether the streams differ only at one place, where there is the given data or nothing.
///
/// Where the last sector of the file was cut off, this is said only of streams that could be read:
/// others may become readable when the file grows.
pub open spec fn streams_replaced(
    before: CompoundView,
    after: CompoundView,
    path: Seq<char>,
    data: Option<Seq<u8>>,
) -> bool {
    forall|other: Seq<char>|
        #![trigger after.streams.contains_key(other)]
        #![trigger before.streams.contains_key(other)]
        #![trigger same_place(path, other)]
        if other == path || same_place(path, other) {
            &&& after.streams.contains_key(other) <==> data is Some
            &&& data is Some ==> after.streams[other] == data->0
        } else {
            &&& before.streams.contains_key(other) ==> after.streams.contains_key(other)
                && after.streams[other] == before.streams[other]
            &&& whole_sectors(before.bytes) && after.streams.contains_key(other)
                ==> before.streams.contains_key(other)
        }
}

/// Why a stream could not be written.
pub enum WriteError {
    /// It could not be created.
    Create(std::io::Error),
    /// Its contents could not be written.
    Write(std::io::Error),
}

/// The names and paths in a list of entries.
pub open spec fn entry_texts(list: Seq<(String, String)>) -> Seq<(Seq<char>, Seq<char>)> {
    list.map_values(|entry: (String, String)| (entry.0@, entry.1@))
}

/// Opens the compound file that consists of the given bytes.
///
/// Calls `cfb::CompoundFile::open`, which accepts or rejects the bytes, whatever they are, and
/// keeps them; there are enough of them for a header. It shares out the sectors as they say.
#[verifier::external_body]
pub(crate) fn open(raw: Vec<u8>) -> (result: Result<
    RefCell<CompoundFile<Cursor<Vec<u8>>>>,
    std::io::Error,
>)
    ensures
        result matches Ok(container) ==> opened_view(raw@) == Some(compound_view(container)),
        result matches Ok(container) ==> compound_view(container).bytes == raw@,
        result matches Ok(container) ==> layout_is_safe(raw@) ==> compound_view(container).safe,
        result matches Ok(container) ==> layout_is_apart(raw@) ==> compound_view(container).apart,
        result matches Ok(container) ==> layout_is_tidy(raw@) ==> compound_view(container).tidy,
        result matches Ok(container) ==> compound_view(container).bytes.len() >= 512,
        result is Err ==> opened_view(raw@) is None,
{
    CompoundFile::open(Cursor::new(raw)).map(RefCell::new)
}

/// Reads a stream.
///
/// Calls `cfb::CompoundFile::open_stream` and reads the stream to its end. Nothing changes by
/// reading, and a path at which a stream can be read exists.
#[verifier::external_body]
pub(crate) fn read(container: &RefCell<CompoundFile<Cursor<Vec<u8>>>>, path: &str) -> (result:
    Result<Vec<u8>, std::io::Error>)
    ensures
        result matches Ok(data) ==> compound_view(*container).streams.contains_pair(path@, data@)
            && compound_view(*container).names.contains_key(path@),
        result is Err ==> !compound_view(*container).streams.contains_key(path@),
{
    let mut data = Vec::new();
    let mut file = container.borrow_mut();
    std::io::Read::read_to_end(&mut file.open_stream(path)?, &mut data)?;
    Ok(data)
}

/// Lists all storages and streams.
///
/// Calls `cfb::CompoundFile::walk_storage` on the root, which always exists.
#[verifier::external_body]
pub(crate) fn walk(container: &RefCell<CompoundFile<Cursor<Vec<u8>>>>) -> (result: Result<
    Vec<(String, String)>,
    std::io::Error,
>)
    ensures
        result is Ok,
        entry_texts(result->Ok_0@) == compound_view(*container).entries,
{
    let file = container.borrow();
    let entries = file.walk_storage("/")?;
    Ok(
        entries.map(
            |entry|
                (
                    entry.name().to_owned(),
                    entry.path().to_str().unwrap_or_default().to_owned(),
                ),
        ).collect(),
    )
}

/// Whether there is a storage or a stream at a path.
///
/// Calls `cfb::CompoundFile::exists`.
#[verifier::external_body]
pub(crate) fn exists_at(container: &RefCell<CompoundFile<Cursor<Vec<u8>>>>, path: &str) -> (found:
    bool)
    ensures
        found == compound_view(*container).names.contains_key(path@),
{
    container.borrow().exists(path)
}

/// Finds the name of the storage or stream at a path, as it is stored.
///
/// Calls `cfb::CompoundFile::entry` and `cfb::Entry::name`.
#[verifier::external_body]
pub(crate) fn name_at(container: &RefCell<CompoundFile<Cursor<Vec<u8>>>>, path: &str) -> (result:
    Result<String, std::io::Error>)
    ensures
        result matches Ok(name) ==> compound_view(*container).names.contains_pair(path@, name@),
        result is Err ==> !compound_view(*container).names.contains_key(path@),
{
    container.borrow().entry(path).map(|entry| entry.name().to_owned())
}

/// Whether the directory is in order.
pub(crate) fn check_directory(container: &RefCell<CompoundFile<Cursor<Vec<u8>>>>) -> (ordered: bool)
    ensures
        ordered == directory_is_ordered(compound_view(*container)),
{
    let ghost file = compound_view(*container);
    let list = match walk(container) {
        Ok(list) => list,
        Err(_) => {
            return false;
        },
    };
    let mut k: usize = 0;
    while k < list.len()
        invariant
            k <= list.len(),
            file == compound_view(*container),
            entry_texts(list@) == file.entries,
            forall|i: int|
                0 <= i < k ==> file.names.contains_pair(
                    (#[trigger] file.entries[i]).1,
                    file.entries[i].0,
                ),
            forall|i: int, j: int|
                0 <= i < j < k ==> (#[trigger] file.entries[i]).1 != (#[trigger] file.entries[j]).1,
        decreases list.len() - k,
    {
        assert(file.entries[k as int] == (list@[k as int].0@, list@[k as int].1@));
        match name_at(container, &list[k].1) {
            Ok(name) => if name != list[k].0 {
                return false;
            },
            Err(_) => {
                return false;
            },
        }
        let mut j: usize = 0;
        while j < k
            invariant
                j <= k < list.len(),
                entry_texts(list@) == file.entries,
                file == compound_view(*container),
                file.entries[k as int] == (list@[k as int].0@, list@[k as int].1@),
                forall|i: int|
                    0 <= i < j ==> (#[trigger] file.entries[i]).1 != file.entries[k as int].1,
            decreases k - j,
        {
            assert(file.entries[j as int] == (list@[j as int].0@, list@[j as int].1@));
            if list[j].1 == list[k].1 {
                return false;
            }
            j = j + 1;
        }
        k = k + 1;
    }
    true
}

/// Removes a stream.
///
/// Calls `cfb::CompoundFile::remove_stream`, which frees the sectors of the stream's chain and its
/// entry in the directory. A stream that can be read can be removed. The file does not become
/// shorter, and what was said of its sectors stays true. A stream can be created at the path, at
/// which nothing is found any more if the directory was in order. If every stream has sectors of
/// its own as well, the directory stays in order, all others stay as they are, and opening the
/// bytes of the file gives what it holds. Otherwise it is not said what other streams hold.
#[verifier::external_body]
pub(crate) fn remove(
    container: &mut RefCell<CompoundFile<Cursor<Vec<u8>>>>,
    path: &str,
) -> (result: Result<(), std::io::Error>)
    requires
        is_removable(compound_view(*old(container)), path@),
    ensures
        result is Ok,
        compound_view(*old(container)).safe ==> compound_view(*final(container)).safe,
        compound_view(*old(container)).apart ==> compound_view(*final(container)).apart,
        compound_view(*old(container)).tidy ==> compound_view(*final(container)).tidy,
        compound_view(*final(container)).bytes.len() == compound_view(*old(container)).bytes.len(),
        sector_size(compound_view(*final(container)).bytes) == sector_size(
            compound_view(*old(container)).bytes,
        ),
        compound_view(*final(container)).nameable.contains(path@),
        directory_is_ordered(compound_view(*old(container))) ==> !compound_view(
            *final(container),
        ).names.contains_key(path@),
        is_sound(compound_view(*old(container))) ==> is_sound(compound_view(*final(container))),
        is_sound(compound_view(*old(container))) ==> opened_view(
            compound_view(*final(container)).bytes,
        ) == Some(compound_view(*final(container))),
        is_sound(compound_view(*old(container))) ==> streams_replaced(
            compound_view(*old(container)),
            compound_view(*final(container)),
            path@,
            None,
        ),
{
    container.get_mut().remove_stream(path)
}

/// Creates a stream and writes its contents.
///
/// Calls `cfb::CompoundFile::create_stream`, writes all data to the stream and closes it, which
/// takes up sectors that are free or new, so that streams that had sectors of their own keep them.
/// The file becomes longer by the sectors of the stream and of the tables at most. If nothing was
/// found at the path, this succeeds. If it succeeds, the stream can be read at the path. If the
/// directory is in order and every stream has sectors of its own, the stream can be read at every
/// path that denotes the place; all others stay as they are, and opening the bytes of the file
/// gives what it holds. Otherwise it is not said what other streams hold: those that share sectors
/// with each other change together.
#[verifier::external_body]
pub(crate) fn write_new(
    container: &mut RefCell<CompoundFile<Cursor<Vec<u8>>>>,
    path: &str,
    data: &[u8],
) -> (result: Result<(), WriteError>)
    requires
        compound_view(*old(container)).nameable.contains(path@),
        compound_view(*old(container)).apart && compound_view(*old(container)).tidy || (
        compound_view(*old(container)).safe || compound_view(*old(container)).apart)
            && !compound_view(*old(container)).names.contains_key(path@),
        has_room(compound_view(*old(container)), data@.len()),
    ensures
        compound_view(*old(container)).apart ==> compound_view(*final(container)).apart,
        compound_view(*old(container)).tidy ==> compound_view(*final(container)).tidy,
        compound_view(*final(container)).bytes.len() <= compound_view(
            *old(container),
        ).bytes.len() + growth(data@.len()),
        sector_size(compound_view(*final(container)).bytes) == sector_size(
            compound_view(*old(container)).bytes,
        ),
        whole_sectors(compound_view(*old(container)).bytes) ==> whole_sectors(
            compound_view(*final(container)).bytes,
        ),
        !compound_view(*old(container)).names.contains_key(path@) ==> result is Ok,
        result is Ok ==> compound_view(*final(container)).streams.contains_pair(path@, data@),
        is_sound(compound_view(*old(container))) && !compound_view(
            *old(container),
        ).names.contains_key(path@) ==> is_sound(compound_view(*final(container))),
        is_sound(compound_view(*old(container))) && !compound_view(
            *old(container),
        ).names.contains_key(path@) ==> opened_view(compound_view(*final(container)).bytes)
            == Some(compound_view(*final(container))),
        is_sound(compound_view(*old(container))) && !compound_view(
            *old(container),
        ).names.contains_key(path@) ==> streams_replaced(
            compound_view(*old(container)),
            compound_view(*final(container)),
            path@,
            Some(data@),
        ),
{
    let mut stream = container.get_mut().create_stream(path).map_err(WriteError::Create)?;
    std::io::Write::write_all(&mut stream, data).map_err(WriteError::Write)
}

/// Writes changes through.
///
/// Calls `cfb::CompoundFile::flush`, which leaves what the file holds as it is. There is nothing to
/// write through in memory, so this does not fail.
#[verifier::external_body]
pub(crate) fn flush(container: &mut RefCell<CompoundFile<Cursor<Vec<u8>>>>) -> (result: Result<
    (),
    std::io::Error,
>)
    ensures
        result is Ok,
        compound_view(*final(container)) == compound_view(*old(container)),
{
    container.get_mut().flush()
}

/// Creates a compound file without streams.
///
/// Calls `cfb::CompoundFile::create`, which writes a header, a table and a directory; in memory
/// this does not fail. The file holds the root storage alone.
#[verifier::external_body]
pub(crate) fn create() -> (result: Result<
    RefCell<CompoundFile<Cursor<Vec<u8>>>>,
    std::io::Error,
>)
    ensures
        result is Ok,
        result matches Ok(container) ==> {
            &&& compound_view(container).streams == Map::<Seq<char>, Seq<u8>>::empty()
            &&& compound_view(container).entries == seq![("Root Entry"@, "/"@)]
            &&& is_sound(compound_view(container))
            &&& compound_view(container).tidy
            &&& compound_view(container).bytes.len() <= 0x1_0000
            &&& opened_view(compound_view(container).bytes) == Some(compound_view(container))
        },
{
    CompoundFile::create(Cursor::new(Vec::new())).map(RefCell::new)
}

/// Turns a compound file into the bytes that it consists of.
///
/// Calls `cfb::CompoundFile::into_inner`.
#[verifier::external_body]
pub(crate) fn into_bytes(container: RefCell<CompoundFile<Cursor<Vec<u8>>>>) -> (raw: Vec<u8>)
    ensures
        raw@ == compound_view(container).bytes,
{
    container.into_inner().into_inner().into_inner()
}

} // verus!
