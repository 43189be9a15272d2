//! The modules of a project.

use vstd::prelude::*;

use crate::bytes::{
    data_record, le_u16, parse_data_record, parse_u16_record, parse_u32_record, tag16, tag32,
    tag_u16, tag_u32, u16_field, u16_record, u32_record,
};
use crate::code_page::{cp_to_string, readable, text_of};
use crate::format::{agrees, followed_by, opt, optional, FormatError, Model, Parsed};

verus! {

broadcast use {
    crate::bytes::lemma_data_record_size,
    crate::bytes::lemma_u16_record_size,
    crate::bytes::lemma_u32_record_size,
};

/// Specifies the containing module's type.
#[derive(Debug, Clone, Copy, PartialEq, Eq, Structural)]
pub enum ModuleType {
    /// Specifies a procedural module.
    ///
    /// A procedural module is a collection of subroutines and functions.
    Procedural,
    /// Specifies a document module, class module, or designer module.
    ///
    /// A document module is a type of VBA project item that specifies a module for
    /// embedded macros and programmatic access operations that are associated with a
    /// document.
    ///
    /// A class module is a module that contains the definition for a new object. Each
    /// instance of a class creates a new object, and procedures that are defined in the
    /// module become properties and methods of the object.
    ///
    /// A designer module is a VBA module that extends the methods and properties of an
    /// ActiveX control that has been registered with the project.
    ///
    /// The file format doesn't distinguish between these three module types and encodes
    /// them using a single umbrella type ID.
    DocClsDesigner,
}

/// Specifies data for a module.
#[derive(Debug)]
pub struct Module {
    /// Specifies a VBA identifier as the name of the containing `Module`.
    pub name: String,
    /// Specifies the stream name in the VBA storage corresponding to the containing
    /// `Module`.
    pub stream_name: String,
    /// Specifies the description for the containing `Module`.
    pub doc_string: String,
    /// Specifies the location of the source code within the stream that corresponds to
    /// the containing `Module`.
    pub text_offset: usize,
    /// Specifies the Help topic identifier for the containing `Module`.
    pub help_context: u32,
    /// Specifies whether the containing `Module` is a procedural module, document
    /// module, class module, or designer module.
    pub module_type: ModuleType,
    /// Specifies that the containing `Module` is read-only.
    pub read_only: bool,
    /// Specifies that the containing `Module` is only usable from within the current VBA
    /// project.
    pub private: bool,
}

/// The value of a [`Module`].
#[verifier::ext_equal]
pub struct ModuleView {
    pub name: Seq<char>,
    pub stream_name: Seq<char>,
    pub doc_string: Seq<char>,
    pub text_offset: nat,
    pub help_context: u32,
    pub module_type: ModuleType,
    pub read_only: bool,
    pub private: bool,
}

impl Model for bool {
    type M = bool;

    open spec fn model(&self) -> bool {
        *self
    }
}

impl Model for ModuleType {
    type M = ModuleType;

    open spec fn model(&self) -> ModuleType {
        *self
    }
}

impl Model for Module {
    type M = ModuleView;

    open spec fn model(&self) -> ModuleView {
        ModuleView {
            name: self.name@,
            stream_name: self.stream_name@,
            doc_string: self.doc_string@,
            text_offset: self.text_offset as nat,
            help_context: self.help_context,
            module_type: self.module_type,
            read_only: self.read_only,
            private: self.private,
        }
    }
}

impl Model for Vec<Module> {
    type M = Seq<ModuleView>;

    open spec fn model(&self) -> Seq<ModuleView> {
        self@.map_values(|module: Module| module.model())
    }
}

/// Two records that hold a text: in the project's code page and in UTF-16. The latter is
/// dropped.
#[verifier::opaque]
pub open spec fn text_records(
    input: Seq<u8>,
    id: u16,
    unicode_id: u16,
    code_page: u16,
) -> Parsed<Seq<char>> {
    followed_by(
        data_record(input, id),
        |rest: Seq<u8>, text: Seq<u8>|
            followed_by(
                data_record(rest, unicode_id),
                |rest: Seq<u8>, _unicode: Seq<u8>| Ok((rest, text_of(code_page, text))),
            ),
    )
}

/// The records of a module's name, of which the one in UTF-16 may be missing and is dropped.
#[verifier::opaque]
pub open spec fn module_name(input: Seq<u8>, code_page: u16) -> Parsed<Seq<char>> {
    followed_by(
        data_record(input, 0x19),
        |rest: Seq<u8>, name: Seq<u8>|
            followed_by(
                optional(rest, data_record(rest, 0x47)),
                |rest: Seq<u8>, _unicode: Option<Seq<u8>>| Ok((rest, text_of(code_page, name))),
            ),
    )
}

/// The type that the identifier of a module's type record stands for.
pub open spec fn module_type_of(id: u16) -> Option<ModuleType> {
    if id == 0x21 {
        Some(ModuleType::Procedural)
    } else if id == 0x22 {
        Some(ModuleType::DocClsDesigner)
    } else {
        None
    }
}

/// The record of a module's type.
pub open spec fn module_type_record(input: Seq<u8>) -> Parsed<ModuleType> {
    followed_by(
        u16_field(input),
        |rest: Seq<u8>, id: u16|
            match module_type_of(id) {
                Some(module_type) => followed_by(
                    tag32(rest, 0),
                    |rest: Seq<u8>, _size: ()| Ok((rest, module_type)),
                ),
                None => Err(FormatError::UnexpectedValue),
            },
    )
}

/// A record without content.
pub open spec fn empty_record(input: Seq<u8>, id: u16) -> Parsed<()> {
    followed_by(tag16(input, id), |rest: Seq<u8>, _id: ()| tag32(rest, 0))
}

/// Whether there is a record without content.
pub open spec fn flag_record(input: Seq<u8>, id: u16) -> Parsed<bool> {
    followed_by(
        optional(input, empty_record(input, id)),
        |rest: Seq<u8>, found: Option<()>| Ok((rest, found is Some)),
    )
}

/// The records behind those of a module's texts: the location of its source code, its Help
/// topic, its type, and whether it is read-only and private. The cookie among them is dropped.
#[verifier::opaque]
pub open spec fn module_settings(input: Seq<u8>) -> Parsed<
    ((u32, u32), (ModuleType, (bool, bool))),
> {
    followed_by(
        u32_record(input, 0x31),
        |rest: Seq<u8>, text_offset: u32|
            followed_by(
                u32_record(rest, 0x1e),
                |rest: Seq<u8>, help_context: u32|
                    followed_by(
                        u16_record(rest, 0x2c),
                        |rest: Seq<u8>, _cookie: u16|
                            followed_by(
                                module_kind(rest),
                                |rest: Seq<u8>, kind: (ModuleType, (bool, bool))|
                                    Ok((rest, ((text_offset, help_context), kind))),
                            ),
                    ),
            ),
    )
}

/// The last records of a module: its type, whether it is read-only and private, and the end.
#[verifier::opaque]
pub open spec fn module_kind(input: Seq<u8>) -> Parsed<(ModuleType, (bool, bool))> {
    followed_by(
        module_type_record(input),
        |rest: Seq<u8>, module_type: ModuleType|
            followed_by(
                flag_record(rest, 0x25),
                |rest: Seq<u8>, read_only: bool|
                    followed_by(
                        flag_record(rest, 0x28),
                        |rest: Seq<u8>, private: bool|
                            followed_by(
                                tag16(rest, 0x2b),
                                |rest: Seq<u8>, _end: ()|
                                    followed_by(
                                        tag32(rest, 0),
                                        |rest: Seq<u8>, _zero: ()|
                                            Ok((rest, (module_type, (read_only, private)))),
                                    ),
                            ),
                    ),
            ),
    )
}

/// The records of a module.
#[verifier::opaque]
pub open spec fn module_record(input: Seq<u8>, code_page: u16) -> Parsed<ModuleView> {
    followed_by(
        module_name(input, code_page),
        |rest: Seq<u8>, name: Seq<char>|
            followed_by(
                text_records(rest, 0x1a, 0x32, code_page),
                |rest: Seq<u8>, stream_name: Seq<char>|
                    followed_by(
                        text_records(rest, 0x1c, 0x48, code_page),
                        |rest: Seq<u8>, doc_string: Seq<char>|
                            followed_by(
                                module_settings(rest),
                                |
                                    rest: Seq<u8>,
                                    settings: ((u32, u32), (ModuleType, (bool, bool))),
                                |
                                    Ok(
                                        (
                                            rest,
                                            ModuleView {
                                                name,
                                                stream_name,
                                                doc_string,
                                                text_offset: settings.0.0 as nat,
                                                help_context: settings.0.1,
                                                module_type: settings.1.0,
                                                read_only: settings.1.1.0,
                                                private: settings.1.1.1,
                                            },
                                        ),
                                    ),
                            ),
                    ),
            ),
    )
}

/// The records of `count` modules, behind those that were found before.
pub open spec fn modules_from(
    input: Seq<u8>,
    code_page: u16,
    count: int,
    found: Seq<ModuleView>,
) -> Parsed<Seq<ModuleView>>
    decreases count,
{
    if count <= 0 {
        Ok((input, found))
    } else {
        match module_record(input, code_page) {
            Ok((rest, module)) => modules_from(rest, code_page, count - 1, found.push(module)),
            Err(error) => Err(error),
        }
    }
}

/// The number of modules and a cookie that is dropped.
pub open spec fn module_count(input: Seq<u8>) -> Parsed<u16> {
    followed_by(
        u16_record(input, 0x0f),
        |rest: Seq<u8>, count: u16|
            followed_by(u16_record(rest, 0x13), |rest: Seq<u8>, _cookie: u16| Ok((rest, count))),
    )
}

/// The number of modules and their records.
pub open spec fn modules(input: Seq<u8>, code_page: u16) -> Parsed<Seq<ModuleView>> {
    followed_by(
        module_count(input),
        |rest: Seq<u8>, count: u16| modules_from(rest, code_page, count as int, Seq::empty()),
    )
}

/// Whether text is read from the records of the modules.
pub open spec fn modules_have_text(input: Seq<u8>) -> bool {
    module_count(input) matches Ok((rest, count)) && count > 0 && data_record(rest, 0x19) is Ok
}

/// Reads two records that hold a text.
fn parse_text_records(i: &[u8], id: u16, unicode_id: u16, code_page: u16) -> (result: Result<
    (&[u8], String),
    FormatError<&[u8]>,
>)
    requires
        readable(code_page, i@),
    ensures
        agrees(result, text_records(i@, id, unicode_id, code_page)),
{
    proof {
        reveal(text_records);
    }
    let (i, text) = parse_data_record(i, id)?;
    let (i, _) = parse_data_record(i, unicode_id)?;
    Ok((i, cp_to_string(text, code_page)))
}

/// Reads a module's name.
fn parse_module_name(i: &[u8], code_page: u16) -> (result: Result<
    (&[u8], String),
    FormatError<&[u8]>,
>)
    requires
        data_record(i@, 0x19) is Ok ==> readable(code_page, i@),
    ensures
        agrees(result, module_name(i@, code_page)),
{
    proof {
        reveal(module_name);
    }
    let (i, name) = parse_data_record(i, 0x19)?;
    let name = cp_to_string(name, code_page);
    let (i, _) = opt(i, parse_data_record(i, 0x47))?;
    Ok((i, name))
}

/// Reads a module's type.
fn parse_module_type(i: &[u8]) -> (result: Result<(&[u8], ModuleType), FormatError<&[u8]>>)
    ensures
        agrees(result, module_type_record(i@)),
{
    let (i, id) = le_u16(i)?;
    let module_type = match id {
        0x21 => ModuleType::Procedural,
        0x22 => ModuleType::DocClsDesigner,
        _ => {
            return Err(FormatError::UnexpectedValue);
        },
    };
    let (i, _) = tag_u32(i, 0)?;
    Ok((i, module_type))
}

/// Reads a record without content.
fn parse_empty_record(i: &[u8], id: u16) -> (result: Result<(&[u8], ()), FormatError<&[u8]>>)
    ensures
        agrees(result, empty_record(i@, id)),
{
    let (i, _) = tag_u16(i, id)?;
    tag_u32(i, 0)
}

/// Reads whether there is a record without content.
fn parse_flag(i: &[u8], id: u16) -> (result: Result<(&[u8], bool), FormatError<&[u8]>>)
    ensures
        agrees(result, flag_record(i@, id)),
{
    let (i, found) = opt(i, parse_empty_record(i, id))?;
    Ok((i, found.is_some()))
}

/// Reads the last records of a module.
fn parse_module_kind(i: &[u8]) -> (result: Result<
    (&[u8], (ModuleType, (bool, bool))),
    FormatError<&[u8]>,
>)
    ensures
        agrees(result, module_kind(i@)),
{
    proof {
        reveal(module_kind);
    }
    let (i, module_type) = parse_module_type(i)?;
    let (i, read_only) = parse_flag(i, 0x25)?;
    let (i, private) = parse_flag(i, 0x28)?;
    let (i, _) = tag_u16(i, 0x2b)?;
    let (i, _) = tag_u32(i, 0)?;
    Ok((i, (module_type, (read_only, private))))
}

/// Reads the records behind those of a module's texts.
fn parse_module_settings(i: &[u8]) -> (result: Result<
    (&[u8], ((u32, u32), (ModuleType, (bool, bool)))),
    FormatError<&[u8]>,
>)
    ensures
        agrees(result, module_settings(i@)),
{
    proof {
        reveal(module_settings);
    }
    let (i, text_offset) = parse_u32_record(i, 0x31)?;
    let (i, help_context) = parse_u32_record(i, 0x1e)?;
    let (i, _) = parse_u16_record(i, 0x2c)?;
    let (i, kind) = parse_module_kind(i)?;
    Ok((i, ((text_offset, help_context), kind)))
}

/// Reads a module.
pub fn parse_module(i: &[u8], code_page: u16) -> (result: Result<
    (&[u8], Module),
    FormatError<&[u8]>,
>)
    requires
        data_record(i@, 0x19) is Ok ==> readable(code_page, i@),
    ensures
        agrees(result, module_record(i@, code_page)),
{
    proof {
        reveal(module_record);
        lemma_module_name_takes_input(i@, code_page);
    }
    let (i, name) = parse_module_name(i, code_page)?;
    proof {
        lemma_text_records_take_input(i@, 0x1a, 0x32, code_page);
    }
    let (i, stream_name) = parse_text_records(i, 0x1a, 0x32, code_page)?;
    let (i, doc_string) = parse_text_records(i, 0x1c, 0x48, code_page)?;
    let (i, settings) = parse_module_settings(i)?;
    let ((text_offset, help_context), (module_type, (read_only, private))) = settings;
    Ok(
        (
            i,
            Module {
                name,
                stream_name,
                doc_string,
                text_offset: text_offset as usize,
                help_context,
                module_type,
                read_only,
                private,
            },
        ),
    )
}

/// Reads the number of modules.
fn parse_module_count(i: &[u8]) -> (result: Result<(&[u8], u16), FormatError<&[u8]>>)
    ensures
        agrees(result, module_count(i@)),
{
    let (i, count) = parse_u16_record(i, 0x0f)?;
    let (i, _) = parse_u16_record(i, 0x13)?;
    Ok((i, count))
}

/// Reads all modules.
pub fn parse_modules(i: &[u8], code_page: u16) -> (result: Result<
    (&[u8], Vec<Module>),
    FormatError<&[u8]>,
>)
    requires
        modules_have_text(i@) ==> readable(code_page, i@),
    ensures
        agrees(result, modules(i@, code_page)),
{
    let (mut rest, count) = parse_module_count(i)?;
    let mut result: Vec<Module> = Vec::new();
    let mut left: u16 = count;
    assert(result.model() == Seq::<ModuleView>::empty());
    while left > 0
        invariant
            left > 0 && data_record(rest@, 0x19) is Ok ==> readable(code_page, rest@),
            modules_from(rest@, code_page, left as int, result.model()) == modules(i@, code_page),
        decreases left,
    {
        proof {
            lemma_module_takes_input(rest@, code_page);
        }
        let (remainder, module) = parse_module(rest, code_page)?;
        rest = remainder;
        let ghost found = result.model();
        result.push(module);
        assert(result.model() == found.push(module.model()));
        left = left - 1;
    }
    Ok((rest, result))
}

/// The last records of a module take up some of the input.
proof fn lemma_module_settings_take_input(input: Seq<u8>)
    ensures
        module_settings(input) matches Ok((rest, _)) ==> rest.len() < input.len(),
{
    reveal(module_settings);
    if let Ok((rest, _)) = u32_record(input, 0x31) {
        assert(rest.len() < input.len());
        if let Ok((rest, _)) = u32_record(rest, 0x1e) {
            assert(rest.len() < input.len());
            if let Ok((rest, _)) = u16_record(rest, 0x2c) {
                assert(rest.len() < input.len());
                lemma_module_kind_takes_input(rest);
            }
        }
    }
}

proof fn lemma_module_kind_takes_input(input: Seq<u8>)
    ensures
        module_kind(input) matches Ok((rest, _)) ==> rest.len() < input.len(),
{
    reveal(module_kind);
}

proof fn lemma_module_name_takes_input(input: Seq<u8>, code_page: u16)
    ensures
        module_name(input, code_page) matches Ok((rest, _)) ==> rest.len() < input.len()
            && data_record(input, 0x19) is Ok,
{
    reveal(module_name);
}

proof fn lemma_text_records_take_input(
    input: Seq<u8>,
    id: u16,
    unicode_id: u16,
    code_page: u16,
)
    ensures
        text_records(input, id, unicode_id, code_page) matches Ok((rest, _)) ==> rest.len()
            < input.len(),
{
    reveal(text_records);
}

/// A module takes up some of the input, and text was read from it.
pub proof fn lemma_module_takes_input(input: Seq<u8>, code_page: u16)
    ensures
        module_record(input, code_page) matches Ok((rest, _)) ==> rest.len() < input.len()
            && data_record(input, 0x19) is Ok,
{
    reveal(module_record);
    lemma_module_name_takes_input(input, code_page);
    if let Ok((rest, _)) = module_name(input, code_page) {
        lemma_text_records_take_input(rest, 0x1a, 0x32, code_page);
        if let Ok((rest, _)) = text_records(rest, 0x1a, 0x32, code_page) {
            lemma_text_records_take_input(rest, 0x1c, 0x48, code_page);
            if let Ok((rest, _)) = text_records(rest, 0x1c, 0x48, code_page) {
                lemma_module_settings_take_input(rest);
            }
        }
    }
}

} // verus!
