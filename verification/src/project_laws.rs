//! What the operations on a project give, in terms of the streams of its compound file.

use vstd::prelude::*;

use crate::bytes::data_record;
use crate::chunk_laws::lemma_chunks_are_joined;
use crate::code_page::{bytes_of, known_code_page, text_of};
use crate::container::{directory_is_ordered, opened_view, CompoundView};
use crate::decompression::{chunk, decompressed};
use crate::dir_stream::{header, project_information, texts_are_readable, ProjectInformationView};
use crate::encoding_laws::{is_encoding, lemma_encoding_is_written};
use crate::error::{Error, ErrorView};
use crate::format::FormatError;
use crate::laws::{is_first_named, lemma_module_named};
use crate::layout::{
    layout_after, layout_is_apart, layout_is_safe, layout_is_tidy, layout_of, whole_sectors, Layout,
};
use crate::module_stream::{decimal, module_named, stream_path, stream_with};
use crate::modules::ModuleView;
use crate::place::same_place;
use crate::project::{
    changed_source, contents, dir_contents, is_in_dir, is_known_changeable, raw_source, source,
    source_set, stream_source, ProjectView,
};
use crate::round_trip::lemma_compressed_is_empty_only_for_nothing;
use crate::token_laws::{packed, Token};
use crate::written_dir::{
    dir_fits, dir_value, lemma_dir_is_read, lemma_header_is_read, with_dir, DirSource,
};

verus! {

/// A compound file whose *dir* stream is a container of chunks that together hold the records of a
/// project is opened as what those records say, whatever stands behind them.
pub proof fn lemma_project_is_opened(
    file: CompoundView,
    chunks: Seq<Seq<u8>>,
    parts: Seq<Seq<u8>>,
    source: DirSource,
    rest: Seq<u8>,
)
    requires
        file.streams.contains_pair(
            seq!['/', 'V', 'B', 'A', '/', 'd', 'i', 'r'],
            seq![1u8] + chunks.flatten(),
        ),
        chunks.len() >= 1,
        parts.len() == chunks.len(),
        forall|i: int|
            0 <= i < chunks.len() ==> chunk(#[trigger] chunks[i]) == Some(
                Ok::<(Seq<u8>, Seq<u8>), FormatError<Seq<u8>>>((Seq::empty(), parts[i])),
            ),
        parts.flatten() == with_dir(source, rest),
        dir_fits(source),
        known_code_page(source.information.code_page),
        3 * parts.flatten().len() + 3 <= isize::MAX,
    ensures
        contents(Some(file)) == Some(
            Ok::<ProjectInformationView, ErrorView>(dir_value(source)),
        ),
        dir_contents(seq![1u8] + chunks.flatten()) == Some(
            Ok::<ProjectInformationView, ErrorView>(dir_value(source)),
        ),
{
    reveal_strlit("/VBA/dir");
    assert("/VBA/dir"@ == seq!['/', 'V', 'B', 'A', '/', 'd', 'i', 'r']);
    lemma_chunks_are_joined(chunks, parts);
    lemma_dir_is_read(source, rest);
    lemma_header_is_read(source, rest);
}

/// A compound file is rejected that is none, that has no *dir* stream, or whose *dir* stream is not
/// compressed or does not hold the records of a project; where the container has no answer, there
/// is none here.
pub proof fn lemma_other_file_is_rejected(file: CompoundView, data: Seq<u8>)
    ensures
        contents(None) == Some(Err::<ProjectInformationView, ErrorView>(ErrorView::Cfb)),
        !file.streams.contains_key("/VBA/dir"@) ==> contents(Some(file)) == Some(
            Err::<ProjectInformationView, ErrorView>(ErrorView::Cfb),
        ),
        file.streams.contains_pair("/VBA/dir"@, data) ==> contents(Some(file)) == dir_contents(
            data,
        ),
        match decompressed(data) {
            Some(Err(_)) => dir_contents(data) == Some(
                Err::<ProjectInformationView, ErrorView>(ErrorView::Decompressor),
            ),
            Some(Ok((_, content))) => {
                &&& !texts_are_readable(content) ==> dir_contents(data) is None
                &&& texts_are_readable(content) && project_information(content) is Err
                    ==> dir_contents(data) == Some(
                    Err::<ProjectInformationView, ErrorView>(ErrorView::Parser),
                )
                &&& texts_are_readable(content) ==> (project_information(content) matches Ok(
                    (_, value),
                ) ==> dir_contents(data) == Some(Ok::<ProjectInformationView, ErrorView>(value)))
            },
            None => dir_contents(data) is None,
        },
{
}

/// The text of a *dir* stream can be read if and only if the code page that it names is known and
/// the text fits in memory, or no text is reached in it.
pub proof fn lemma_texts_are_readable(content: Seq<u8>)
    ensures
        texts_are_readable(content) <==> match header(content) {
            Ok((rest, (_, code_page))) => known_code_page(code_page) && 3 * content.len() + 3
                <= isize::MAX || data_record(rest, 0x04) is Err,
            Err(_) => true,
        },
{
}

/// The path of the stream with the given name: the name itself where it starts with a slash, and
/// otherwise the name in the storage of the project's code.
pub proof fn lemma_stream_path(name: Seq<char>)
    ensures
        name.len() > 0 && name[0] == '/' ==> stream_path(name) == name,
        name.len() == 0 || name[0] != '/' ==> stream_path(name) == seq!['/', 'V', 'B', 'A', '/']
            + name,
{
    reveal_strlit("/VBA/");
    assert("/VBA/"@ == seq!['/', 'V', 'B', 'A', '/']);
}

/// What a stream holds from a position on is decompressed, whatever stands in front of it; nothing
/// is read of a stream that ends there, and errors are told apart.
pub proof fn lemma_stream_is_decompressed(
    file: CompoundView,
    path: Seq<char>,
    cache: Seq<u8>,
    container: Seq<u8>,
)
    ensures
        !file.streams.contains_key(path) ==> stream_source(file, path, cache.len()) == Some(
            Err::<Seq<u8>, ErrorView>(ErrorView::Cfb),
        ),
        file.streams.contains_pair(path, cache + container) ==> match decompressed(container) {
            Some(Ok((_, data))) => stream_source(file, path, cache.len()) == Some(
                Ok::<Seq<u8>, ErrorView>(data),
            ),
            Some(Err(_)) => stream_source(file, path, cache.len()) == Some(
                Err::<Seq<u8>, ErrorView>(ErrorView::Decompressor),
            ),
            None => stream_source(file, path, cache.len()) is None,
        },
        forall|offset: nat|
            file.streams.contains_pair(path, cache) && offset >= cache.len()
                ==> #[trigger] stream_source(file, path, offset) == Some(
                Err::<Seq<u8>, ErrorView>(ErrorView::Decompressor),
            ),
{
    let stream = cache + container;
    assert(stream.skip(cache.len() as int) == container);
}

/// The source code of a module is what the container holds that stands in its stream behind as many
/// bytes as the module says, in one chunk or in many.
pub proof fn lemma_source_is_found(
    modules: Seq<ModuleView>,
    k: int,
    file: CompoundView,
    cache: Seq<u8>,
    chunks: Seq<Seq<u8>>,
    parts: Seq<Seq<u8>>,
)
    requires
        is_first_named(modules, modules[k].name, k),
        modules[k].text_offset == cache.len(),
        modules[k].stream_name.len() > 0,
        file.streams.contains_pair(
            if modules[k].stream_name[0] == '/' {
                modules[k].stream_name
            } else {
                seq!['/', 'V', 'B', 'A', '/'] + modules[k].stream_name
            },
            cache + (seq![1u8] + chunks.flatten()),
        ),
        chunks.len() >= 1,
        parts.len() == chunks.len(),
        forall|i: int|
            0 <= i < chunks.len() ==> chunk(#[trigger] chunks[i]) == Some(
                Ok::<(Seq<u8>, Seq<u8>), FormatError<Seq<u8>>>((Seq::empty(), parts[i])),
            ),
    ensures
        raw_source(modules, file, modules[k].name) == Some(
            Ok::<Seq<u8>, ErrorView>(parts.flatten()),
        ),
{
    let name = modules[k].name;
    let container = seq![1u8] + chunks.flatten();
    lemma_module_is_first(modules, name, k);
    lemma_stream_path(modules[k].stream_name);
    lemma_chunks_are_joined(chunks, parts);
    lemma_stream_is_decompressed(file, stream_path(modules[k].stream_name), cache, container);
}

/// The first module of a name is the one that is found by it.
pub proof fn lemma_module_is_first(modules: Seq<ModuleView>, name: Seq<char>, k: int)
    requires
        is_first_named(modules, name, k),
    ensures
        module_named(modules, name) == Some(modules[k]),
{
    lemma_module_named(modules, name);
    if module_named(modules, name) is None {
        assert(modules[k].name != name);
    }
    let j = choose|j: int|
        is_first_named(modules, name, j) && modules[j] == module_named(modules, name)->0;
    assert(j == k);
}

/// The number that digits stand for.
pub open spec fn number_of(digits: Seq<char>) -> int
    decreases digits.len(),
{
    if digits.len() == 0 {
        0
    } else {
        10 * number_of(digits.drop_last()) + (digits.last() as u32 - 48)
    }
}

/// The decimal digits of a number stand for the number, and the first of them is no zero unless it
/// is the only one.
pub proof fn lemma_decimal(value: nat)
    ensures
        number_of(decimal(value)) == value,
        decimal(value).len() > 0,
        forall|k: int|
            0 <= k < decimal(value).len() ==> '0' <= #[trigger] decimal(value)[k] && decimal(
                value,
            )[k] <= '9',
        decimal(value).len() > 1 ==> decimal(value)[0] != '0',
        value > 0 ==> decimal(value)[0] != '0',
    decreases value,
{
    if value < 10 {
        assert(decimal(value).drop_last() == Seq::<char>::empty());
        assert(number_of(Seq::<char>::empty()) == 0);
    } else {
        lemma_decimal(value / 10);
        assert(decimal(value).drop_last() == decimal(value / 10));
    }
}

/// A stream is built for source code from the bytes in front of it and a container of one chunk,
/// which holds the tokens to write for it. This fails only where there is no source code, or where
/// those tokens take up more than 4096 bytes.
pub proof fn lemma_stream_is_built(
    cache: Seq<u8>,
    source: Seq<u8>,
    flags: Seq<u8>,
    tokens: Seq<Token>,
    starts: Seq<int>,
)
    requires
        is_encoding(source, flags, tokens, starts),
    ensures
        ({
            let data = packed(flags, tokens);
            let size = data.len() as int;
            &&& source.len() == 0 ==> stream_with(cache, source) == Err::<Seq<u8>, ErrorView>(
                ErrorView::Generic("Compressed data part is empty, cannot form header"@),
            )
            &&& source.len() > 0 && size <= 4096 ==> stream_with(cache, source) == Ok::<
                Seq<u8>,
                ErrorView,
            >(cache + seq![1u8, ((size - 1) % 256) as u8, (176 + (size - 1) / 256) as u8] + data)
            &&& source.len() > 0 && size > 4096 ==> stream_with(cache, source) == Err::<
                Seq<u8>,
                ErrorView,
            >(
                ErrorView::Generic(
                    "Compressed data part too large ("@ + decimal(size as nat)
                        + ") for chunk size field (max 4096)"@,
                ),
            )
        }),
{
    let data = packed(flags, tokens);
    let size = data.len() as int;
    lemma_encoding_is_written(source, flags, tokens, starts);
    lemma_compressed_is_empty_only_for_nothing(source);
    if source.len() > 0 && size <= 4096 {
        let header = 0xb000 + (size - 1);
        assert(header % 0x100 == (size - 1) % 256);
        assert(header / 0x100 == 176 + (size - 1) / 256);
        assert(cache + seq![1u8, ((size - 1) % 256) as u8, (176 + (size - 1) / 256) as u8] + data
            == stream_with(cache, source)->Ok_0);
    }
}

/// Setting a module's source code is refused where no module has the name, where its stream cannot
/// be read, and where the stream ends before the source code starts; otherwise what is built for
/// the module's stream keeps the bytes in front of its source code.
pub proof fn lemma_change_is_built(project: ProjectView, name: Seq<char>, text: Seq<char>, k: int)
    ensures
        (forall|j: int| 0 <= j < project.modules.len() ==> (#[trigger] project.modules[j]).name
            != name) ==> changed_source(project, name, text) == Err::<
            (Seq<char>, Seq<u8>),
            ErrorView,
        >(ErrorView::ModuleNotFound(name)),
        is_first_named(project.modules, name, k) ==> {
            let path = stream_path(project.modules[k].stream_name);
            let offset = project.modules[k].text_offset as int;
            let stream = project.file.streams[path];
            if !project.file.streams.contains_key(path) {
                changed_source(project, name, text) == Err::<(Seq<char>, Seq<u8>), ErrorView>(
                    ErrorView::Cfb,
                )
            } else if offset > stream.len() {
                changed_source(project, name, text) == Err::<(Seq<char>, Seq<u8>), ErrorView>(
                    ErrorView::Generic("Module text_offset exceeds stream data length"@),
                )
            } else {
                match stream_with(
                    stream.take(offset),
                    bytes_of(project.information.code_page, text)->0,
                ) {
                    Ok(changed) => changed_source(project, name, text) == Ok::<
                        (Seq<char>, Seq<u8>),
                        ErrorView,
                    >((path, changed)),
                    Err(error) => changed_source(project, name, text) == Err::<
                        (Seq<char>, Seq<u8>),
                        ErrorView,
                    >(error),
                }
            }
        },
{
    lemma_module_named(project.modules, name);
    if is_first_named(project.modules, name, k) {
        lemma_module_is_first(project.modules, name, k);
    }
}

/// Setting a module's source code changes nothing but the module's stream: where it is refused,
/// nothing at all; and where the directory is in order and every stream has sectors of its own, no
/// other stream.
pub proof fn lemma_only_stream_is_set(
    before: ProjectView,
    after: ProjectView,
    name: Seq<char>,
    text: Seq<char>,
    result: Result<(), Error>,
    other: Seq<char>,
)
    requires
        source_set(before, after, name, text, result),
    ensures
        after.information == before.information,
        after.references == before.references,
        after.modules == before.modules,
        after.original_raw_data == before.original_raw_data,
        changed_source(before, name, text) matches Err(error) ==> after == before && (
        result matches Err(found) && found@ == error),
        changed_source(before, name, text) matches Ok((path, stream)) ==> {
            &&& result is Ok ==> after.file.streams.contains_pair(path, stream)
            &&& directory_is_ordered(before.file) ==> result is Ok
            &&& before.file.apart && directory_is_ordered(before.file) ==> {
                &&& after.file.streams.contains_pair(path, stream)
                &&& opened_view(after.file.bytes) == Some(after.file)
                &&& other != path && !same_place(path, other) && before.file.streams.contains_key(
                    other,
                ) ==> after.file.streams.contains_pair(other, before.file.streams[other])
                &&& other != path && !same_place(path, other) && whole_sectors(before.file.bytes)
                    && after.file.streams.contains_key(other)
                    ==> before.file.streams.contains_key(other)
            }
        },
{
    if let Ok((path, stream)) = changed_source(before, name, text) {
        if before.file.apart && directory_is_ordered(before.file) {
            assert(after.file.streams.contains_key(path));
            assert(after.file.streams.contains_key(other) || true);
        }
    }
}

/// The source code of a module is given as text wherever its bytes are found, the code page is
/// known and the text fits in memory; and not where the bytes are not found.
pub proof fn lemma_source_is_text(
    modules: Seq<ModuleView>,
    file: CompoundView,
    name: Seq<char>,
    code_page: u16,
)
    ensures
        raw_source(modules, file, name) matches Some(Ok(data)) ==> if known_code_page(code_page)
            && 3 * data.len() + 3 <= isize::MAX {
            source(modules, file, name, code_page) == Some(
                Ok::<Seq<char>, ErrorView>(text_of(code_page, data)),
            )
        } else {
            source(modules, file, name, code_page) is None
        },
{
}

/// The source code of a module is held by the *dir* stream where the path of its stream is that of
/// the *dir* stream, or denotes the same place.
pub proof fn lemma_module_in_dir(modules: Seq<ModuleView>, name: Seq<char>, k: int)
    ensures
        (forall|j: int| 0 <= j < modules.len() ==> (#[trigger] modules[j]).name != name)
            ==> !is_in_dir(modules, name),
        is_first_named(modules, name, k) ==> (is_in_dir(modules, name) <==> stream_path(
            modules[k].stream_name,
        ) == "/VBA/dir"@ || same_place(stream_path(modules[k].stream_name), "/VBA/dir"@)),
{
    lemma_module_named(modules, name);
    if is_first_named(modules, name, k) {
        lemma_module_is_first(modules, name, k);
    }
}

/// The stream of a module is known to be changeable in a project that was opened from a file in
/// which every stream has sectors of its own and empty streams have none, as long as the file does
/// not outgrow its format; and where the directory is in order, in one in which the directory has
/// sectors of its own, if the stream is not empty.
pub proof fn lemma_stream_is_changeable(
    project: ProjectView,
    raw: Seq<u8>,
    path: Seq<char>,
    length: nat,
)
    requires
        project.layout == layout_of(raw),
        512 <= raw.len() <= u64::MAX,
    ensures
        ({
            let limit: int = if raw[26] + 0x100 * raw[27] == 3 {
                0xffff_ffff
            } else {
                0xfff_ffff_b000
            };
            let fits = raw.len() + 2 * length + 0x1_0000 <= limit;
            &&& !fits ==> !is_known_changeable(project, path, length)
            &&& fits && layout_is_apart(raw) && layout_is_tidy(raw) ==> is_known_changeable(
                project,
                path,
                length,
            )
            &&& fits && (layout_is_safe(raw) || layout_is_apart(raw)) && directory_is_ordered(
                project.file,
            ) && (layout_is_tidy(raw) || project.file.streams[path].len() > 0)
                ==> is_known_changeable(project, path, length)
        }),
{
}

/// After a change in a project in which every stream had sectors of its own, this is still known,
/// as long as the file does not outgrow its format.
pub proof fn lemma_layout_after_change(layout: Layout, length: nat)
    requires
        layout.apart,
        layout.length + 2 * length + 0x1_0000 <= layout.limit,
    ensures
        layout_after(layout, length).apart,
        layout_after(layout, length).safe,
        layout_after(layout, length).tidy == layout.tidy,
        layout_after(layout, length).limit == layout.limit,
        layout_after(layout, length).length == layout.length + 2 * length + 0x1_0000,
{
}

/// The directory of a compound file is in order if and only if everything that it lists is found at
/// its path under its name, and at no other place of the list.
pub proof fn lemma_directory_is_ordered(file: CompoundView)
    ensures
        directory_is_ordered(file) <==> forall|i: int, j: int|
            #![trigger file.entries[i], file.entries[j]]
            0 <= i < file.entries.len() && 0 <= j < file.entries.len() ==> {
                let (name, path) = file.entries[i];
                &&& file.names.contains_key(path)
                &&& file.names[path] == name
                &&& i != j ==> path != file.entries[j].1
            },
{
    if forall|i: int, j: int|
        #![trigger file.entries[i], file.entries[j]]
        0 <= i < file.entries.len() && 0 <= j < file.entries.len() ==> {
            let (name, path) = file.entries[i];
            &&& file.names.contains_key(path)
            &&& file.names[path] == name
            &&& i != j ==> path != file.entries[j].1
        } {
        assert forall|k: int| 0 <= k < file.entries.len() implies file.names.contains_pair(
            (#[trigger] file.entries[k]).1,
            file.entries[k].0,
        ) by {
            let (name, path) = file.entries[k];
        }
    }
}

} // verus!
