//! A project: opening it, reading it, changing it and saving it.

use std::cell::RefCell;
use std::io::Cursor;

use cfb::CompoundFile;
use vstd::prelude::*;
use vstd::slice::{slice_subrange, slice_to_vec};

use crate::code_page::{
    bytes_of, cp_to_string, is_read_back, is_readable, readable, string_to_cp, text_of,
    try_string_to_cp, writable,
};
use crate::container::{
    check_directory, compound_view, create, directory_is_ordered, entry_texts, exists_at, flush,
    has_room, into_bytes, is_removable, is_sound, open, opened_view, read, remove, streams_replaced,
    walk, write_new, CompoundView, WriteError,
};
use crate::decompression::{decompressed, try_decompress};
use crate::dir_stream::{
    check_texts, parse_project_information, project_information, texts_are_readable,
    ProjectInformation, ProjectInformationView,
};
use crate::error::{yields, Error, ErrorView};
use crate::format::Model;
use crate::information::{Information, InformationView};
use crate::layout::{
    find_layout, find_layout_after, format_limit, growth, layout_after, layout_of, sector_size,
    Layout,
};
use crate::module_stream::{
    build_stream, find_module, module_named, path_of_stream, source_from, stream_path, stream_with,
    try_source_from,
};
use crate::modules::{Module, ModuleView};
use crate::place::{is_same_place, same_place};
use crate::references::{Reference, ReferenceView};

verus! {

/// Represents a VBA project.
///
/// This type serves as the entry point into this crate's functionality and exposes the
/// public API surface.
pub struct Project {
    /// Specifies version-independent information for the VBA project.
    pub information: Information,
    /// Specifies the external references of the VBA project.
    pub references: Vec<Reference>,
    /// Specifies the modules in the project.
    pub modules: Vec<Module>,
    container: RefCell<CompoundFile<Cursor<Vec<u8>>>>,
    /// What is known of the layout of the compound file.
    layout: Layout,
    /// The bytes that the project was opened from.
    pub original_raw_data: Vec<u8>,
}

/// The value of a [`Project`].
pub struct ProjectView {
    pub information: InformationView,
    pub references: Seq<ReferenceView>,
    pub modules: Seq<ModuleView>,
    /// What the project's compound file holds.
    pub file: CompoundView,
    /// What is known of the layout of the compound file.
    pub layout: Layout,
    pub original_raw_data: Seq<u8>,
}

impl View for Project {
    type V = ProjectView;

    closed spec fn view(&self) -> ProjectView {
        ProjectView {
            information: self.information@,
            references: self.references.model(),
            modules: self.modules.model(),
            file: compound_view(self.container),
            layout: self.layout,
            original_raw_data: self.original_raw_data@,
        }
    }
}

/// The value of a project has the value of each of its fields.
proof fn lemma_project_value(project: Project)
    ensures
        project@.information == project.information@,
        project@.references == project.references.model(),
        project@.modules == project.modules.model(),
        project@.file == compound_view(project.container),
        project@.original_raw_data == project.original_raw_data@,
{
}

/// What a *dir* stream says of its project.
///
/// There is no answer where there is none for the compressed container, or where the stream
/// holds text in a code page that is not known or text that does not fit in memory.
pub open spec fn dir_contents(data: Seq<u8>) -> Option<Result<ProjectInformationView, ErrorView>> {
    match decompressed(data) {
        Some(Ok((_, content))) => if !texts_are_readable(content) {
            None
        } else {
            match project_information(content) {
                Ok((_, information)) => Some(Ok(information)),
                Err(_) => Some(Err(ErrorView::Parser)),
            }
        },
        Some(Err(_)) => Some(Err(ErrorView::Decompressor)),
        None => None,
    }
}

/// What the *dir* stream of a compound file says of its project.
pub open spec fn contents(file: Option<CompoundView>) -> Option<
    Result<ProjectInformationView, ErrorView>,
> {
    match file {
        Some(view) => if view.streams.contains_key("/VBA/dir"@) {
            dir_contents(view.streams["/VBA/dir"@])
        } else {
            Some(Err(ErrorView::Cfb))
        },
        None => Some(Err(ErrorView::Cfb)),
    }
}

/// The module of the given name and the contents of its stream.
pub open spec fn module_data(
    modules: Seq<ModuleView>,
    file: CompoundView,
    name: Seq<char>,
) -> Result<(ModuleView, Seq<u8>), ErrorView> {
    match module_named(modules, name) {
        Some(module) => if file.streams.contains_key(stream_path(module.stream_name)) {
            Ok((module, file.streams[stream_path(module.stream_name)]))
        } else {
            Err(ErrorView::Cfb)
        },
        None => Err(ErrorView::ModuleNotFound(name)),
    }
}

/// The source code that is held by a stream from `offset` on.
pub open spec fn stream_source(file: CompoundView, path: Seq<char>, offset: nat) -> Option<
    Result<Seq<u8>, ErrorView>,
> {
    if file.streams.contains_key(path) {
        source_from(file.streams[path], offset)
    } else {
        Some(Err(ErrorView::Cfb))
    }
}

/// The source code of the module of the given name.
pub open spec fn raw_source(
    modules: Seq<ModuleView>,
    file: CompoundView,
    name: Seq<char>,
) -> Option<Result<Seq<u8>, ErrorView>> {
    match module_named(modules, name) {
        Some(module) => stream_source(file, stream_path(module.stream_name), module.text_offset),
        None => Some(Err(ErrorView::ModuleNotFound(name))),
    }
}

/// The source code of the module of the given name, as text.
pub open spec fn source(
    modules: Seq<ModuleView>,
    file: CompoundView,
    name: Seq<char>,
    code_page: u16,
) -> Option<Result<Seq<char>, ErrorView>> {
    match raw_source(modules, file, name) {
        Some(Ok(data)) => if readable(code_page, data) {
            Some(Ok(text_of(code_page, data)))
        } else {
            None
        },
        Some(Err(error)) => Some(Err(error)),
        None => None,
    }
}

/// The bytes in front of the source code of the module of the given name, and the path of its
/// stream.
pub open spec fn module_cache(
    modules: Seq<ModuleView>,
    file: CompoundView,
    name: Seq<char>,
) -> Result<(Seq<char>, Seq<u8>), ErrorView> {
    match module_data(modules, file, name) {
        Ok((module, data)) => if module.text_offset > data.len() {
            Err(ErrorView::Generic("Module text_offset exceeds stream data length"@))
        } else {
            Ok((stream_path(module.stream_name), data.take(module.text_offset as int)))
        },
        Err(error) => Err(error),
    }
}

/// The path of the stream of the module of the given name, and the contents that give it new
/// source code.
pub open spec fn changed_stream(
    modules: Seq<ModuleView>,
    file: CompoundView,
    name: Seq<char>,
    source: Seq<u8>,
) -> Result<(Seq<char>, Seq<u8>), ErrorView> {
    match module_cache(modules, file, name) {
        Ok((path, cache)) => match stream_with(cache, source) {
            Ok(stream) => Ok((path, stream)),
            Err(error) => Err(error),
        },
        Err(error) => Err(error),
    }
}

/// The path of the stream of the module of the given name, and the contents that give it the
/// given text as its source code.
pub open spec fn changed_source(project: ProjectView, name: Seq<char>, text: Seq<char>) -> Result<
    (Seq<char>, Seq<u8>),
    ErrorView,
> {
    changed_stream(
        project.modules,
        project.file,
        name,
        bytes_of(project.information.code_page, text)->0,
    )
}

/// Whether what is known of the layout of a project's compound file is true.
pub open spec fn is_consistent(project: ProjectView) -> bool {
    let (layout, file) = (project.layout, project.file);
    &&& layout.safe ==> file.safe || file.apart
    &&& layout.apart ==> file.apart
    &&& layout.tidy ==> file.tidy
    &&& layout.safe || layout.apart ==> file.bytes.len() <= layout.length
    &&& layout.limit <= format_limit(file.bytes)
}

/// Whether a stream of a project's compound file is known to be removable, and a new one of the
/// given length to have room.
pub open spec fn is_known_changeable(project: ProjectView, path: Seq<char>, length: nat) -> bool {
    let (layout, file) = (project.layout, project.file);
    &&& layout.apart && layout.tidy || (layout.safe || layout.apart) && directory_is_ordered(file)
    &&& layout.tidy || file.streams[path].len() > 0
    &&& layout.length + growth(length) <= layout.limit
}

/// Whether a project differs from another only in its compound file.
pub open spec fn only_file_differs(before: ProjectView, after: ProjectView) -> bool {
    after == (ProjectView { file: after.file, layout: after.layout, ..before })
}

/// Whether two projects with sound compound files differ only in the contents of one stream, as far
/// as what can be read of them is concerned.
pub open spec fn stream_changed(
    before: ProjectView,
    after: ProjectView,
    path: Seq<char>,
    stream: Seq<u8>,
) -> bool {
    &&& streams_replaced(before.file, after.file, path, Some(stream))
    &&& is_sound(after.file)
    &&& opened_view(after.file.bytes) == Some(after.file)
    &&& only_file_differs(before, after)
}

/// Whether the source code of the module of the given name is held by the *dir* stream.
pub open spec fn is_in_dir(modules: Seq<ModuleView>, name: Seq<char>) -> bool {
    module_named(modules, name) matches Some(module) && (stream_path(module.stream_name)
        == "/VBA/dir"@ || same_place(stream_path(module.stream_name), "/VBA/dir"@))
}

/// What setting a module's source code comes to.
///
/// Either nothing changes and there is an error, or the module's stream is replaced. Where the
/// directory is in order, the latter succeeds; and where it succeeds, the stream holds the new
/// source code. Where every stream has sectors of its own as well, all others stay as they are.
pub open spec fn source_set(
    before: ProjectView,
    after: ProjectView,
    name: Seq<char>,
    text: Seq<char>,
    result: Result<(), Error>,
) -> bool {
    match changed_source(before, name, text) {
        Ok((path, stream)) => {
            &&& is_read_back(before.information.code_page, text) ==> text_of(
                before.information.code_page,
                bytes_of(before.information.code_page, text)->0,
            ) == text
            &&& only_file_differs(before, after)
            &&& result is Ok ==> after.file.streams.contains_pair(path, stream)
            &&& directory_is_ordered(before.file) ==> result is Ok
            &&& is_sound(before.file) ==> stream_changed(before, after, path, stream)
            &&& result matches Err(error) ==> error@ == ErrorView::Cfb || error@ == ErrorView::Io
            &&& before.file.apart ==> after.file.apart
            &&& before.file.tidy ==> after.file.tidy
            &&& after.file.bytes.len() <= before.file.bytes.len() + growth(stream.len())
            &&& sector_size(after.file.bytes) == sector_size(before.file.bytes)
            &&& after.layout == layout_after(before.layout, stream.len())
            &&& is_consistent(before) ==> is_consistent(after)
        },
        Err(error) => result is Err && result->Err_0@ == error && after == before,
    }
}

impl Project {
    /// Returns a stream's contents.
    ///
    /// This is a low-level function operating on the CFB data. The CFB is the storage
    /// container of the raw binary VBA project.
    pub fn read_stream(&self, stream_path: &str) -> (result: Result<Vec<u8>, Error>)
        ensures
            match result {
                Ok(data) => self@.file.streams.contains_pair(stream_path@, data@)
                    && self@.file.names.contains_key(stream_path@),
                Err(error) => error@ == ErrorView::Cfb && !self@.file.streams.contains_key(
                    stream_path@,
                ),
            },
    {
        match read(&self.container, stream_path) {
            Ok(data) => Ok(data),
            Err(error) => Err(Error::Cfb(error)),
        }
    }

    /// Returns a list of entries (storages and streams) in the raw binary data. Each
    /// entry is represented as a tuple of two `String`s, where the first element
    /// contains the entry's name and the second element the entry's path inside the
    /// CFB.
    pub fn list(&self) -> (result: Result<Vec<(String, String)>, Error>)
        ensures
            result is Ok,
            entry_texts(result->Ok_0@) == self@.file.entries,
    {
        match walk(&self.container) {
            Ok(entries) => Ok(entries),
            Err(error) => Err(Error::Cfb(error)),
        }
    }

    /// Returns a stream's decompressed data, whatever bytes the stream consists of.
    ///
    /// The result is `None` where a chunk is cut off, or where a copy token comes behind too
    /// many bytes of a chunk.
    pub fn try_decompress_stream_from(&self, stream_path: &str, offset: usize) -> (result: Option<
        Result<Vec<u8>, Error>,
    >)
        ensures
            match result {
                Some(answer) => stream_source(self@.file, stream_path@, offset as nat) is Some
                    && yields(answer, stream_source(self@.file, stream_path@, offset as nat)->0),
                None => stream_source(self@.file, stream_path@, offset as nat) is None,
            },
    {
        match self.read_stream(stream_path) {
            Ok(data) => try_source_from(&data, offset),
            Err(error) => Some(Err(error)),
        }
    }

    /// Returns a stream's decompressed data.
    ///
    /// This function reads a stream referenced by `stream_path` and passes the data
    /// starting at `offset` into the RLE decompressor.
    ///
    /// The primary use case for this function is to extract source code from VBA
    /// [`Module`]s. The respective `offset` is reported by [`Module::text_offset`].
    ///
    /// This is a low-level function that is useful for very specific use cases only.
    /// Client code that needs to read source code should use [`Project::module_source`]
    /// or [`Project::module_source_raw`] instead.
    pub fn decompress_stream_from(&self, stream_path: &str, offset: usize) -> (result: Result<
        Vec<u8>,
        Error,
    >)
        requires
            stream_source(self@.file, stream_path@, offset as nat) is Some,
        ensures
            yields(result, stream_source(self@.file, stream_path@, offset as nat)->0),
    {
        self.try_decompress_stream_from(stream_path, offset).unwrap()
    }

    /// Returns the raw source code from a module, whatever bytes its stream consists of.
    ///
    /// The result is `None` where a chunk is cut off, or where a copy token comes behind too
    /// many bytes of a chunk.
    pub fn try_module_source_raw(&self, name: &str) -> (result: Option<Result<Vec<u8>, Error>>)
        ensures
            match result {
                Some(answer) => raw_source(self@.modules, self@.file, name@) is Some
                    && yields(answer, raw_source(self@.modules, self@.file, name@)->0),
                None => raw_source(self@.modules, self@.file, name@) is None,
            },
    {
        match find_module(&self.modules, name) {
            Some(module) => {
                let path = path_of_stream(&module.stream_name);
                self.try_decompress_stream_from(&path, module.text_offset)
            },
            None => Some(Err(Error::ModuleNotFound(name.to_owned()))),
        }
    }

    /// Returns the raw source code from a module.
    ///
    /// The result contains a module's source code as is. No character encoding conversion
    /// is done. The data is encoded using the project's code page available through
    /// [`Information::code_page`].
    pub fn module_source_raw(&self, name: &str) -> (result: Result<Vec<u8>, Error>)
        requires
            raw_source(self@.modules, self@.file, name@) is Some,
        ensures
            yields(result, raw_source(self@.modules, self@.file, name@)->0),
    {
        self.try_module_source_raw(name).unwrap()
    }

    /// Returns a module's source code, whatever bytes its stream consists of.
    ///
    /// The result is `None` where [`Project::try_module_source_raw`] gives `None`, or where the
    /// project's code page is not known.
    pub fn try_module_source(&self, name: &str) -> (result: Option<Result<String, Error>>)
        ensures
            match result {
                Some(answer) => {
                    let outcome = source(
                        self@.modules,
                        self@.file,
                        name@,
                        self@.information.code_page,
                    );
                    outcome is Some && yields(answer, outcome->0)
                },
                None => source(
                    self@.modules,
                    self@.file,
                    name@,
                    self@.information.code_page,
                ) is None,
            },
    {
        match self.try_module_source_raw(name) {
            Some(Ok(data)) => if is_readable(self.information.code_page, &data) {
                Some(Ok(cp_to_string(&data, self.information.code_page)))
            } else {
                None
            },
            Some(Err(error)) => Some(Err(error)),
            None => None,
        }
    }

    /// Returns a module's source code.
    ///
    /// Similar to [`Project::module_source_raw`] this function returns the source code
    /// of a project's module. After the raw source code has been decoded it is then
    /// converted to a `String` using the project's code page.
    pub fn module_source(&self, name: &str) -> (result: Result<String, Error>)
        requires
            match raw_source(self@.modules, self@.file, name@) {
                Some(Ok(data)) => readable(self@.information.code_page, data),
                Some(Err(_)) => true,
                None => false,
            },
        ensures
            yields(
                result,
                source(
                    self@.modules,
                    self@.file,
                    name@,
                    self@.information.code_page,
                )->0,
            ),
    {
        self.try_module_source(name).unwrap()
    }

    /// Returns the path of a module's stream and the bytes in front of the module's source code.
    fn read_module_cache(&self, module_name: &str) -> (result: Result<(String, Vec<u8>), Error>)
        ensures
            yields(result, module_cache(self@.modules, self@.file, module_name@)),
            result matches Ok((path, _)) ==> self@.file.names.contains_key(path@),
    {
        match find_module(&self.modules, module_name) {
            Some(module) => {
                let path = path_of_stream(&module.stream_name);
                let data = self.read_stream(&path)?;
                if module.text_offset > data.len() {
                    return Err(
                        Error::Generic("Module text_offset exceeds stream data length".to_owned()),
                    );
                }
                Ok((path, slice_to_vec(slice_subrange(&data, 0, module.text_offset))))
            },
            None => Err(Error::ModuleNotFound(module_name.to_owned())),
        }
    }

    /// Whether the directory of the project's compound file is in order.
    pub fn has_ordered_directory(&self) -> (ordered: bool)
        ensures
            ordered == directory_is_ordered(self@.file),
    {
        check_directory(&self.container)
    }

    /// Whether the source code of a module is held by the *dir* stream itself, so that setting it
    /// replaces what describes the project.
    pub fn is_in_dir_stream(&self, module_name: &str) -> (shared: bool)
        ensures
            shared == is_in_dir(self@.modules, module_name@),
    {
        match find_module(&self.modules, module_name) {
            Some(module) => {
                let path = path_of_stream(&module.stream_name);
                path == "/VBA/dir".to_owned() || is_same_place(&path, "/VBA/dir")
            },
            None => false,
        }
    }

    /// Sets the source code for a given module.
    ///
    /// This function changes the module's stream in place. The *dir* stream is not changed.
    /// Call [`Project::save`] to get the bytes of the changed project.
    pub fn set_module_source(&mut self, module_name: &str, new_source: &str) -> (result: Result<
        (),
        Error,
    >)
        requires
            module_cache(old(self)@.modules, old(self)@.file, module_name@) is Ok ==> writable(
                old(self)@.information.code_page,
                new_source@,
            ),
            changed_source(old(self)@, module_name@, new_source@) matches Ok((path, stream))
                ==> is_removable(old(self)@.file, path) && has_room(
                old(self)@.file,
                stream.len(),
            ),
        ensures
            source_set(old(self)@, final(self)@, module_name@, new_source@, result),
    {
        let (path, cache) = self.read_module_cache(module_name)?;
        let source = string_to_cp(new_source, self.information.code_page);
        let stream = build_stream(&cache, &source)?;
        self.layout = find_layout_after(&self.layout, stream.len());
        if exists_at(&self.container, &path) {
            match remove(&mut self.container, &path) {
                Ok(_) => {},
                Err(error) => {
                    return Err(Error::Cfb(error));
                },
            }
        }
        match write_new(&mut self.container, &path, &stream) {
            Ok(_) => Ok(()),
            Err(WriteError::Create(error)) => Err(Error::Cfb(error)),
            Err(WriteError::Write(error)) => Err(Error::Io(error)),
        }
    }

    /// Sets the source code for a given module, whatever text it is and whatever the compound file
    /// is like.
    ///
    /// The result is `None`, and nothing changes, where the project's code page is not known or
    /// lacks some character, or where the module's stream is not known to be removable: where it
    /// may share sectors with the directory or with the tables of the compound file.
    pub fn try_set_module_source(
        &mut self,
        module_name: &str,
        new_source: &str,
    ) -> (result: Option<Result<(), Error>>)
        requires
            is_consistent(old(self)@),
        ensures
            match result {
                Some(answer) => {
                    &&& module_cache(old(self)@.modules, old(self)@.file, module_name@) is Ok
                        ==> writable(old(self)@.information.code_page, new_source@)
                    &&& source_set(old(self)@, final(self)@, module_name@, new_source@, answer)
                    &&& changed_source(old(self)@, module_name@, new_source@) matches Ok(
                        (path, stream),
                    ) ==> is_known_changeable(old(self)@, path, stream.len())
                },
                None => {
                    &&& module_cache(old(self)@.modules, old(self)@.file, module_name@) is Ok
                    &&& !writable(old(self)@.information.code_page, new_source@) || (
                    changed_source(old(self)@, module_name@, new_source@) matches Ok((path, stream))
                        && !is_known_changeable(old(self)@, path, stream.len()))
                    &&& final(self)@ == old(self)@
                },
            },
    {
        let (path, cache) = match self.read_module_cache(module_name) {
            Ok(found) => found,
            Err(error) => {
                return Some(Err(error));
            },
        };
        let source = match try_string_to_cp(new_source, self.information.code_page) {
            Some(source) => source,
            None => {
                return None;
            },
        };
        let stream = match build_stream(&cache, &source) {
            Ok(stream) => stream,
            Err(error) => {
                return Some(Err(error));
            },
        };
        if self.can_change(&path, stream.len()) {
            Some(self.set_module_source(module_name, new_source))
        } else {
            None
        }
    }

    /// Whether a stream that can be read is known to be removable, and a new one of the given
    /// length to have room.
    fn can_change(&self, path: &str, length: usize) -> (known: bool)
        requires
            self@.file.streams.contains_key(path@),
        ensures
            known == is_known_changeable(self@, path@, length as nat),
    {
        let layout = &self.layout;
        let grown: u128 = layout.length as u128 + 2 * (length as u128) + 0x1_0000;
        if grown > layout.limit as u128 {
            return false;
        }
        if !(layout.apart && layout.tidy || (layout.safe || layout.apart)
            && self.has_ordered_directory()) {
            return false;
        }
        layout.tidy || match self.read_stream(path) {
            Ok(data) => data.len() > 0,
            Err(_) => false,
        }
    }

    /// Returns the bytes of the project.
    ///
    /// They are those that the project was opened from, as long as no source code is set.
    /// After this operation, the project's compound file is empty.
    pub fn save(&mut self) -> (result: Result<Vec<u8>, Error>)
        ensures
            result is Ok,
            result->Ok_0@ == old(self)@.file.bytes,
            final(self)@.file.streams == Map::<Seq<char>, Seq<u8>>::empty(),
            final(self)@.file.entries == seq![("Root Entry"@, "/"@)],
            is_sound(final(self)@.file),
            is_consistent(final(self)@),
            only_file_differs(old(self)@, final(self)@),
    {
        match flush(&mut self.container) {
            Ok(_) => {},
            Err(error) => {
                return Err(Error::Cfb(error));
            },
        }
        let mut container = match create() {
            Ok(container) => container,
            Err(error) => {
                return Err(Error::Cfb(error));
            },
        };
        std::mem::swap(&mut self.container, &mut container);
        self.layout =
        Layout { safe: true, apart: true, tidy: true, length: 0x1_0000, limit: 0xffff_ffff };
        Ok(into_bytes(container))
    }
}

/// Reads a *dir* stream, whatever bytes it consists of.
///
/// The result is `None` where a chunk is cut off, where a copy token comes behind too many bytes
/// of a chunk, or where the stream holds text in a code page that is not known.
pub fn try_read_dir(data: &[u8]) -> (result: Option<Result<ProjectInformation, Error>>)
    ensures
        match result {
            Some(answer) => dir_contents(data@) is Some && yields(answer, dir_contents(data@)->0),
            None => dir_contents(data@) is None,
        },
{
    let content = match try_decompress(data) {
        Some(Ok((_, content))) => content,
        Some(Err(_)) => {
            return Some(Err(Error::Decompressor));
        },
        None => {
            return None;
        },
    };
    if !check_texts(&content) {
        return None;
    }
    match parse_project_information(&content) {
        Ok((_, information)) => Some(Ok(information)),
        Err(_) => Some(Err(Error::Parser)),
    }
}

/// Whether a project can be opened or is rejected: whether its *dir* stream holds no chunk that
/// is cut off, no copy token behind too many bytes of a chunk, and no text in a code page that is
/// not known.
pub fn is_decidable(raw: &[u8]) -> (decidable: bool)
    ensures
        decidable == contents(opened_view(raw@)) is Some,
{
    match open(slice_to_vec(raw)) {
        Ok(container) => match read(&container, "/VBA/dir") {
            Ok(data) => try_read_dir(&data).is_some(),
            Err(_) => true,
        },
        Err(_) => true,
    }
}

/// Opens a VBA project.
///
/// This function consumes `raw` and returns a [`Project`] struct on success, populated
/// with data from the parsed binary input.
pub fn open_project(raw: Vec<u8>) -> (result: Result<Project, Error>)
    requires
        contents(opened_view(raw@)) is Some,
    ensures
        match result {
            Ok(project) => {
                &&& opened_view(raw@) == Some(project@.file)
                &&& project@.file.bytes == raw@
                &&& project@.layout == layout_of(raw@)
                &&& is_consistent(project@)
                &&& project@.original_raw_data == raw@
                &&& contents(opened_view(raw@)) == Some(
                    Ok::<ProjectInformationView, ErrorView>(
                        ProjectInformationView {
                            information: project@.information,
                            references: project@.references,
                            modules: project@.modules,
                        },
                    ),
                )
            },
            Err(error) => contents(opened_view(raw@)) == Some(
                Err::<ProjectInformationView, ErrorView>(error@),
            ),
        },
{
    let original_raw_data = slice_to_vec(&raw);
    let container = match open(raw) {
        Ok(container) => container,
        Err(error) => {
            return Err(Error::Cfb(error));
        },
    };
    let data = match read(&container, "/VBA/dir") {
        Ok(data) => data,
        Err(error) => {
            return Err(Error::Cfb(error));
        },
    };
    let ProjectInformation { information, references, modules } = try_read_dir(&data).unwrap()?;
    let layout = find_layout(&original_raw_data);
    assert(raw@.len() == original_raw_data.len());
    Ok(Project { information, references, modules, container, layout, original_raw_data })
}

/// Opens a VBA project, whatever bytes it consists of.
///
/// The result is `None` where [`is_decidable`] does not hold.
pub fn try_open_project(raw: Vec<u8>) -> (result: Option<Result<Project, Error>>)
    ensures
        match result {
            Some(Ok(project)) => {
                &&& opened_view(raw@) == Some(project@.file)
                &&& project@.file.bytes == raw@
                &&& project@.layout == layout_of(raw@)
                &&& is_consistent(project@)
                &&& project@.original_raw_data == raw@
                &&& contents(opened_view(raw@)) == Some(
                    Ok::<ProjectInformationView, ErrorView>(
                        ProjectInformationView {
                            information: project@.information,
                            references: project@.references,
                            modules: project@.modules,
                        },
                    ),
                )
            },
            Some(Err(error)) => contents(opened_view(raw@)) == Some(
                Err::<ProjectInformationView, ErrorView>(error@),
            ),
            None => contents(opened_view(raw@)) is None,
        },
{
    if is_decidable(&raw) {
        Some(open_project(raw))
    } else {
        None
    }
}

} // verus!
