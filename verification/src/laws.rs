//! What holds of a project over several operations.

use vstd::prelude::*;

use crate::code_page::{bytes_of, known_code_page, readable, text_of};
use crate::compression::lemma_compressed_is_not_much_shorter;
use crate::container::{opened_view, CompoundView};
use crate::dir_stream::ProjectInformationView;
use crate::error::ErrorView;
use crate::layout::whole_sectors;
use crate::module_stream::{
    lemma_cache_is_kept, lemma_source_is_read_back, module_named, stream_path,
};
use crate::modules::ModuleView;
use crate::place::{is_plain, lemma_plain_streams_differ_by_name, same_name, same_place};
use crate::project::{
    changed_source, contents, is_in_dir, module_cache, only_file_differs, raw_source, source,
    stream_changed, stream_source, ProjectView,
};

verus! {

/// After a module's source code has been set, the bytes that it was written with are read back.
pub proof fn lemma_set_source_is_read_back(
    before: ProjectView,
    after: ProjectView,
    name: Seq<char>,
    text: Seq<char>,
)
    requires
        changed_source(before, name, text) matches Ok((path, stream))
            && after.file.streams.contains_pair(path, stream),
        only_file_differs(before, after),
    ensures
        raw_source(after.modules, after.file, name) == Some(
            Ok::<Seq<u8>, ErrorView>(bytes_of(before.information.code_page, text)->0),
        ),
{
    let data = bytes_of(before.information.code_page, text)->0;
    let (path, cache) = module_cache(before.modules, before.file, name)->Ok_0;
    lemma_source_is_read_back(cache, data);
    assert(after.file.streams.contains_key(path));
}

/// After a module's source code has been set, the text is read back, if it is read back from the
/// bytes that it is written with in the project's code page.
pub proof fn lemma_set_text_is_read_back(
    before: ProjectView,
    after: ProjectView,
    name: Seq<char>,
    text: Seq<char>,
)
    requires
        changed_source(before, name, text) matches Ok((path, stream))
            && after.file.streams.contains_pair(path, stream),
        only_file_differs(before, after),
        known_code_page(before.information.code_page),
        text_of(
            before.information.code_page,
            bytes_of(before.information.code_page, text)->0,
        ) == text,
    ensures
        source(after.modules, after.file, name, after.information.code_page) == Some(
            Ok::<Seq<char>, ErrorView>(text),
        ),
{
    lemma_set_source_is_read_back(before, after, name, text);
    lemma_compressed_is_not_much_shorter(bytes_of(before.information.code_page, text)->0);
}

/// Setting a module's source code leaves every other stream, and so the source code of every
/// other module, as it was; where the last sector of the file was cut off, every other stream that
/// could be read.
pub proof fn lemma_other_streams_are_kept(
    before: ProjectView,
    after: ProjectView,
    path: Seq<char>,
    stream: Seq<u8>,
    other: Seq<char>,
    offset: nat,
)
    requires
        stream_changed(before, after, path, stream),
        other != path,
        !same_place(path, other),
        before.file.streams.contains_key(other) || whole_sectors(before.file.bytes),
    ensures
        stream_source(after.file, other, offset) == stream_source(before.file, other, offset),
        forall|name: Seq<char>|
            (module_named(before.modules, name) matches Some(module) && stream_path(
                module.stream_name,
            ) == other) ==> #[trigger] raw_source(after.modules, after.file, name) == raw_source(
                before.modules,
                before.file,
                name,
            ),
{
    assert(after.file.streams.contains_key(other) <==> before.file.streams.contains_key(other));
}

/// Whether the *dir* stream of a project's compound file describes the project.
pub open spec fn is_described(project: ProjectView, file: CompoundView) -> bool {
    contents(Some(file)) == Some(
        Ok::<ProjectInformationView, ErrorView>(
            ProjectInformationView {
                information: project.information,
                references: project.references,
                modules: project.modules,
            },
        ),
    )
}

/// A project that is saved and opened again, as it was opened before or after its source code was
/// set, is described by its *dir* stream as before, and its compound file holds what it held.
pub proof fn lemma_saved_project_is_read_back(project: ProjectView, raw: Seq<u8>, name: Seq<char>)
    requires
        opened_view(project.file.bytes) == Some(project.file),
        is_described(project, project.file),
        raw == project.file.bytes,
    ensures
        opened_view(raw) == Some(project.file),
        is_described(project, opened_view(raw)->0),
        raw_source(project.modules, opened_view(raw)->0, name) == raw_source(
            project.modules,
            project.file,
            name,
        ),
{
}

/// The *dir* stream still describes the project after a module's source code has been set,
/// unless the module's stream is the *dir* stream itself.
pub proof fn lemma_set_source_keeps_contents(
    before: ProjectView,
    after: ProjectView,
    path: Seq<char>,
    stream: Seq<u8>,
)
    requires
        stream_changed(before, after, path, stream),
        path != "/VBA/dir"@,
        !same_place(path, "/VBA/dir"@),
        before.file.streams.contains_key("/VBA/dir"@) || whole_sectors(before.file.bytes),
    ensures
        contents(Some(after.file)) == contents(Some(before.file)),
{
    assert(after.file.streams.contains_key("/VBA/dir"@) <==> before.file.streams.contains_key(
        "/VBA/dir"@,
    ));
}

/// A project whose source code was set, that was saved and opened again, is described by its
/// *dir* stream as before, and the bytes that the source code was written with are read back.
pub proof fn lemma_changed_project_is_read_back(
    before: ProjectView,
    after: ProjectView,
    name: Seq<char>,
    text: Seq<char>,
    raw: Seq<u8>,
)
    requires
        is_described(before, before.file),
        changed_source(before, name, text) matches Ok((path, stream)) && stream_changed(
            before,
            after,
            path,
            stream,
        ),
        !is_in_dir(before.modules, name),
        raw == after.file.bytes,
    ensures
        opened_view(raw) is Some,
        is_described(before, opened_view(raw)->0),
        raw_source(before.modules, opened_view(raw)->0, name) == Some(
            Ok::<Seq<u8>, ErrorView>(bytes_of(before.information.code_page, text)->0),
        ),
{
    let (path, stream) = changed_source(before, name, text)->Ok_0;
    lemma_set_source_keeps_contents(before, after, path, stream);
    lemma_set_source_is_read_back(before, after, name, text);
}

/// A project whose source code was set, that was saved and opened again, is described by its
/// *dir* stream as before, and gives the text back, if it is read back from the bytes that it is
/// written with in the project's code page.
pub proof fn lemma_changed_text_is_read_back(
    before: ProjectView,
    after: ProjectView,
    name: Seq<char>,
    text: Seq<char>,
    raw: Seq<u8>,
)
    requires
        is_described(before, before.file),
        changed_source(before, name, text) matches Ok((path, stream)) && stream_changed(
            before,
            after,
            path,
            stream,
        ),
        !is_in_dir(before.modules, name),
        known_code_page(before.information.code_page),
        text_of(
            before.information.code_page,
            bytes_of(before.information.code_page, text)->0,
        ) == text,
        raw == after.file.bytes,
    ensures
        opened_view(raw) is Some,
        is_described(before, opened_view(raw)->0),
        source(before.modules, opened_view(raw)->0, name, before.information.code_page) == Some(
            Ok::<Seq<char>, ErrorView>(text),
        ),
{
    lemma_changed_project_is_read_back(before, after, name, text, raw);
    lemma_set_text_is_read_back(before, after, name, text);
}

/// The source code that was set before does not matter for what a module's stream holds after
/// its source code is set again.
pub proof fn lemma_last_source_counts(
    before: ProjectView,
    after: ProjectView,
    name: Seq<char>,
    text: Seq<char>,
    next: Seq<char>,
)
    requires
        changed_source(before, name, text) matches Ok((path, stream))
            && after.file.streams.contains_pair(path, stream),
        only_file_differs(before, after),
    ensures
        changed_source(after, name, next) == changed_source(before, name, next),
{
    let (path, cache) = module_cache(before.modules, before.file, name)->Ok_0;
    lemma_cache_is_kept(cache, bytes_of(before.information.code_page, text)->0);
    assert(after.file.streams.contains_key(path));
}

/// After a module's source code has been set twice, its stream holds what setting it the second
/// time alone would have left.
pub proof fn lemma_last_write_wins(
    before: ProjectView,
    between: ProjectView,
    after: ProjectView,
    name: Seq<char>,
    text: Seq<char>,
    next: Seq<char>,
)
    requires
        changed_source(before, name, text) matches Ok((path, stream))
            && between.file.streams.contains_pair(path, stream),
        only_file_differs(before, between),
        changed_source(between, name, next) matches Ok((path, stream))
            && after.file.streams.contains_pair(path, stream),
    ensures
        changed_source(before, name, next) matches Ok((path, stream))
            && after.file.streams.contains_pair(path, stream),
{
    lemma_last_source_counts(before, between, name, text, next);
}

/// The source code of a module is not held by the *dir* stream if its stream has a plain name other
/// than that.
pub proof fn lemma_plain_stream_is_not_dir(
    modules: Seq<ModuleView>,
    module: ModuleView,
    name: Seq<char>,
)
    requires
        module_named(modules, name) == Some(module),
        is_plain(module.stream_name),
        !same_name(module.stream_name, "dir"@),
    ensures
        !is_in_dir(modules, name),
{
    reveal_strlit("/VBA/");
    reveal_strlit("/VBA/dir");
    reveal_strlit("dir");
    assert("dir"@ != seq!['.', '.'] && "dir"@ != seq!['.']);
    assert(module.stream_name[0] != '/');
    assert(stream_path("dir"@) == "/VBA/dir"@);
    lemma_plain_streams_differ_by_name(module.stream_name, "dir"@);
    if stream_path(module.stream_name) == "/VBA/dir"@ {
        assert(module.stream_name == stream_path(module.stream_name).skip(5));
        assert("dir"@ == "/VBA/dir"@.skip(5));
    }
}

/// Modules are found by their name: the first that has it, and none only if none has it.
pub proof fn lemma_module_named(modules: Seq<ModuleView>, name: Seq<char>)
    ensures
        module_named(modules, name) is None <==> forall|k: int|
            0 <= k < modules.len() ==> (#[trigger] modules[k]).name != name,
        module_named(modules, name) matches Some(module) ==> exists|k: int|
            is_first_named(modules, name, k) && modules[k] == module,
    decreases modules.len(),
{
    if modules.len() > 0 && modules[0].name != name {
        lemma_module_named(modules.skip(1), name);
        if module_named(modules, name) is None {
            assert forall|k: int| 0 <= k < modules.len() implies (#[trigger] modules[k]).name
                != name by {
                if k > 0 {
                    assert(modules.skip(1)[k - 1] == modules[k]);
                }
            }
        } else {
            let k = choose|k: int|
                is_first_named(modules.skip(1), name, k) && modules.skip(1)[k] == module_named(
                    modules,
                    name,
                )->0;
            assert(modules[k + 1] == modules.skip(1)[k]);
            assert forall|j: int| 0 <= j < k + 1 implies (#[trigger] modules[j]).name != name by {
                if j > 0 {
                    assert(modules.skip(1)[j - 1] == modules[j]);
                }
            }
            assert(is_first_named(modules, name, k + 1));
        }
    } else if modules.len() > 0 {
        assert(is_first_named(modules, name, 0));
    }
}

/// Whether a module is the first that has the given name.
pub open spec fn is_first_named(modules: Seq<ModuleView>, name: Seq<char>, k: int) -> bool {
    &&& 0 <= k < modules.len()
    &&& modules[k].name == name
    &&& forall|j: int| 0 <= j < k ==> (#[trigger] modules[j]).name != name
}

/// The source code of a module is not found if and only if no module has the name; otherwise it is
/// what the stream of the first module that has the name holds from the module's offset on.
pub proof fn lemma_raw_source_is_that_of_stream(
    modules: Seq<ModuleView>,
    file: CompoundView,
    name: Seq<char>,
)
    ensures
        raw_source(modules, file, name) == Some(
            Err::<Seq<u8>, ErrorView>(ErrorView::ModuleNotFound(name)),
        ) <==> forall|k: int| 0 <= k < modules.len() ==> (#[trigger] modules[k]).name != name,
        forall|k: int| #[trigger]
            is_first_named(modules, name, k) ==> raw_source(modules, file, name) == stream_source(
                file,
                stream_path(modules[k].stream_name),
                modules[k].text_offset,
            ),
{
    lemma_module_named(modules, name);
    assert forall|k: int| #[trigger] is_first_named(modules, name, k) implies raw_source(
        modules,
        file,
        name,
    ) == stream_source(file, stream_path(modules[k].stream_name), modules[k].text_offset) by {
        assert(modules[k].name == name);
        let j = choose|j: int|
            is_first_named(modules, name, j) && modules[j] == module_named(modules, name)->0;
        assert(j == k);
    }
}

/// The source code of a module as text is its source code, converted with the code page; an error
/// stays as it is.
pub proof fn lemma_source_is_raw_source_as_text(
    modules: Seq<ModuleView>,
    file: CompoundView,
    name: Seq<char>,
    code_page: u16,
)
    ensures
        match raw_source(modules, file, name) {
            Some(Ok(data)) => readable(code_page, data) ==> source(modules, file, name, code_page)
                == Some(Ok::<Seq<char>, ErrorView>(text_of(code_page, data))),
            Some(Err(error)) => source(modules, file, name, code_page) == Some(
                Err::<Seq<char>, ErrorView>(error),
            ),
            None => source(modules, file, name, code_page) is None,
        },
{
}

} // verus!
