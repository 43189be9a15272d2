//! The *dir* stream of a project.

use vstd::prelude::*;

use crate::bytes::{
    data_record, parse_data_record, tag16, tag32, tag_u16, tag_u32, u16_record, u32_record,
};
use crate::code_page::{cp_to_string, is_readable, readable, text_of};
use crate::format::{agrees, followed_by, FormatError, Model, Parsed};
use crate::information::{
    compat_record, constants_record, constants_unicode_record, doc_string_unicode_record,
    parse_code_page, parse_compat, parse_constants, parse_constants_unicode, parse_doc_string,
    parse_doc_string_unicode, parse_help_context, parse_help_file_1, parse_help_file_2, parse_lcid,
    parse_lcid_invoke, parse_lib_flags, parse_name, parse_syskind, parse_version, sys_kind_record,
    version_record, Information, InformationView, SysKind,
};
use crate::modules::{modules, parse_modules, Module, ModuleView};
use crate::references::{
    lemma_references_take_input, parse_references, references, Reference, ReferenceView,
};

verus! {

broadcast use {
    crate::bytes::lemma_data_record_size,
    crate::bytes::lemma_u16_record_size,
    crate::bytes::lemma_u32_record_size,
};

/// Specifies information for the VBA project, including project information, project
/// references, and modules.
#[derive(Debug)]
pub struct ProjectInformation {
    /// Specifies version-independent information for the VBA project.
    pub information: Information,
    /// Specifies the external references of the VBA project.
    pub references: Vec<Reference>,
    /// Specifies the modules in the project.
    pub modules: Vec<Module>,
}

/// The value of a [`ProjectInformation`].
#[verifier::ext_equal]
pub struct ProjectInformationView {
    pub information: InformationView,
    pub references: Seq<ReferenceView>,
    pub modules: Seq<ModuleView>,
}

impl Model for Information {
    type M = InformationView;

    open spec fn model(&self) -> InformationView {
        self@
    }
}

impl Model for ProjectInformation {
    type M = ProjectInformationView;

    open spec fn model(&self) -> ProjectInformationView {
        ProjectInformationView {
            information: self.information@,
            references: self.references.model(),
            modules: self.modules.model(),
        }
    }
}

/// The records in front of the project's texts: its platform, the application version, the
/// locales and the code page.
#[verifier::opaque]
pub open spec fn header(input: Seq<u8>) -> Parsed<(((SysKind, Option<u32>), (u32, u32)), u16)> {
    followed_by(
        sys_kind_record(input),
        |rest: Seq<u8>, sys_kind: SysKind|
            followed_by(
                compat_record(rest),
                |rest: Seq<u8>, compat: Option<u32>|
                    followed_by(
                        u32_record(rest, 0x02),
                        |rest: Seq<u8>, lcid: u32|
                            followed_by(
                                u32_record(rest, 0x14),
                                |rest: Seq<u8>, lcid_invoke: u32|
                                    followed_by(
                                        u16_record(rest, 0x03),
                                        |rest: Seq<u8>, code_page: u16|
                                            Ok(
                                                (
                                                    rest,
                                                    (
                                                        ((sys_kind, compat), (lcid, lcid_invoke)),
                                                        code_page,
                                                    ),
                                                ),
                                            ),
                                    ),
                            ),
                    ),
            ),
    )
}

/// The records of the project's name, its description and the path to its Help file. The
/// description in UTF-16 and the second copy of the path are dropped.
#[verifier::opaque]
pub open spec fn texts(input: Seq<u8>, code_page: u16) -> Parsed<
    ((Seq<char>, Seq<char>), Seq<char>),
> {
    followed_by(
        data_record(input, 0x04),
        |rest: Seq<u8>, name: Seq<u8>|
            followed_by(
                data_record(rest, 0x05),
                |rest: Seq<u8>, doc_string: Seq<u8>|
                    followed_by(
                        doc_string_unicode_record(rest),
                        |rest: Seq<u8>, _unicode: Seq<u8>|
                            followed_by(
                                data_record(rest, 0x06),
                                |rest: Seq<u8>, help_file_1: Seq<u8>|
                                    followed_by(
                                        data_record(rest, 0x3d),
                                        |rest: Seq<u8>, _help_file_2: Seq<u8>|
                                            Ok(
                                                (
                                                    rest,
                                                    (
                                                        (
                                                            text_of(code_page, name),
                                                            text_of(code_page, doc_string),
                                                        ),
                                                        text_of(code_page, help_file_1),
                                                    ),
                                                ),
                                            ),
                                    ),
                            ),
                    ),
            ),
    )
}

/// The records of the project's Help topic, the flags of its type library and its version.
#[verifier::opaque]
pub open spec fn numbers(input: Seq<u8>) -> Parsed<((u32, u32), (u32, u16))> {
    followed_by(
        u32_record(input, 0x07),
        |rest: Seq<u8>, help_context: u32|
            followed_by(
                u32_record(rest, 0x08),
                |rest: Seq<u8>, lib_flags: u32|
                    followed_by(
                        version_record(rest),
                        |rest: Seq<u8>, version: (u32, u16)|
                            Ok((rest, ((help_context, lib_flags), version))),
                    ),
            ),
    )
}

/// The records of the compilation constants, which may be missing. The constants in UTF-16 are
/// dropped; they are not looked for where the others are missing.
#[verifier::opaque]
pub open spec fn constants(input: Seq<u8>, code_page: u16) -> Parsed<Option<Seq<char>>> {
    followed_by(
        constants_record(input),
        |rest: Seq<u8>, constants: Option<Seq<u8>>|
            match constants {
                Some(constants) => followed_by(
                    constants_unicode_record(rest),
                    |rest: Seq<u8>, _unicode: Option<Seq<u8>>|
                        Ok((rest, Some(text_of(code_page, constants)))),
                ),
                None => Ok((rest, None)),
            },
    )
}

/// The version-independent information behind the records in front of the project's texts.
pub open spec fn information_from(
    input: Seq<u8>,
    header: (((SysKind, Option<u32>), (u32, u32)), u16),
) -> Parsed<InformationView> {
    followed_by(
        texts(input, header.1),
        |rest: Seq<u8>, texts: ((Seq<char>, Seq<char>), Seq<char>)|
            followed_by(
                numbers(rest),
                |rest: Seq<u8>, numbers: ((u32, u32), (u32, u16))|
                    followed_by(
                        constants(rest, header.1),
                        |rest: Seq<u8>, constants: Option<Seq<char>>|
                            Ok(
                                (
                                    rest,
                                    InformationView {
                                        sys_kind: header.0.0.0,
                                        compat: header.0.0.1,
                                        lcid: header.0.1.0,
                                        lcid_invoke: header.0.1.1,
                                        code_page: header.1,
                                        name: texts.0.0,
                                        doc_string: texts.0.1,
                                        help_file_1: texts.1,
                                        help_context: numbers.0.0,
                                        lib_flags: numbers.0.1,
                                        version_major: numbers.1.0,
                                        version_minor: numbers.1.1,
                                        constants,
                                    },
                                ),
                            ),
                    ),
            ),
    )
}

/// The version-independent information.
#[verifier::opaque]
pub open spec fn information(input: Seq<u8>) -> Parsed<InformationView> {
    followed_by(
        header(input),
        |rest: Seq<u8>, header: (((SysKind, Option<u32>), (u32, u32)), u16)|
            information_from(rest, header),
    )
}

/// The contents of a *dir* stream. What stands behind its end is not looked at.
#[verifier::opaque]
pub open spec fn project_information(input: Seq<u8>) -> Parsed<ProjectInformationView> {
    followed_by(
        information(input),
        |rest: Seq<u8>, information: InformationView|
            followed_by(
                references(rest, information.code_page),
                |rest: Seq<u8>, references: Seq<ReferenceView>|
                    followed_by(
                        modules(rest, information.code_page),
                        |rest: Seq<u8>, modules: Seq<ModuleView>|
                            followed_by(
                                tag16(rest, 0x10),
                                |rest: Seq<u8>, _end: ()|
                                    followed_by(
                                        tag32(rest, 0),
                                        |rest: Seq<u8>, _zero: ()|
                                            Ok(
                                                (
                                                    rest,
                                                    ProjectInformationView {
                                                        information,
                                                        references,
                                                        modules,
                                                    },
                                                ),
                                            ),
                                    ),
                            ),
                    ),
            ),
    )
}

/// Whether all text of a *dir* stream can be read, as far as any text is reached in it: whether
/// the code page that it names is known, and the text fits in memory.
pub open spec fn texts_are_readable(input: Seq<u8>) -> bool {
    match header(input) {
        Ok((rest, (_, code_page))) => data_record(rest, 0x04) is Ok ==> readable(code_page, input),
        Err(_) => true,
    }
}

proof fn lemma_header_takes_input(input: Seq<u8>)
    ensures
        header(input) matches Ok((rest, _)) ==> rest.len() <= input.len(),
{
    reveal(header);
}

proof fn lemma_texts_take_input(input: Seq<u8>, code_page: u16)
    ensures
        texts(input, code_page) matches Ok((rest, _)) ==> rest.len() <= input.len()
            && data_record(input, 0x04) is Ok,
{
    reveal(texts);
}

proof fn lemma_numbers_take_input(input: Seq<u8>)
    ensures
        numbers(input) matches Ok((rest, _)) ==> rest.len() <= input.len(),
{
    reveal(numbers);
}

proof fn lemma_constants_take_input(input: Seq<u8>, code_page: u16)
    ensures
        constants(input, code_page) matches Ok((rest, _)) ==> rest.len() <= input.len(),
{
    reveal(constants);
}

/// Where the information is found, the code page in it is known and the rest is readable.
proof fn lemma_information_is_readable(input: Seq<u8>)
    requires
        texts_are_readable(input),
    ensures
        information(input) matches Ok((rest, value)) ==> readable(value.code_page, rest),
{
    reveal(information);
    lemma_header_takes_input(input);
    if let Ok((rest, header)) = header(input) {
        lemma_texts_take_input(rest, header.1);
        if let Ok((rest, _)) = texts(rest, header.1) {
            lemma_numbers_take_input(rest);
            if let Ok((rest, _)) = numbers(rest) {
                lemma_constants_take_input(rest, header.1);
            }
        }
    }
}

/// Reads the records in front of the project's texts.
fn parse_header(i: &[u8]) -> (result: Result<
    (&[u8], (((SysKind, Option<u32>), (u32, u32)), u16)),
    FormatError<&[u8]>,
>)
    ensures
        agrees(result, header(i@)),
{
    proof {
        reveal(header);
    }
    let (i, sys_kind) = parse_syskind(i)?;
    let (i, compat) = parse_compat(i)?;
    let (i, lcid) = parse_lcid(i)?;
    let (i, lcid_invoke) = parse_lcid_invoke(i)?;
    let (i, code_page) = parse_code_page(i)?;
    Ok((i, (((sys_kind, compat), (lcid, lcid_invoke)), code_page)))
}

/// Reads the project's name, its description and the path to its Help file.
fn parse_texts(i: &[u8], code_page: u16) -> (result: Result<
    (&[u8], ((String, String), String)),
    FormatError<&[u8]>,
>)
    requires
        data_record(i@, 0x04) is Ok ==> readable(code_page, i@),
    ensures
        agrees(result, texts(i@, code_page)),
{
    proof {
        reveal(texts);
    }
    let (i, name) = parse_name(i)?;
    let name = cp_to_string(&name, code_page);
    let (i, doc_string) = parse_doc_string(i)?;
    let doc_string = cp_to_string(&doc_string, code_page);
    let (i, _) = parse_doc_string_unicode(i)?;
    let (i, help_file_1) = parse_help_file_1(i)?;
    let help_file_1 = cp_to_string(&help_file_1, code_page);
    let (i, _) = parse_help_file_2(i)?;
    Ok((i, ((name, doc_string), help_file_1)))
}

/// Reads the project's Help topic, the flags of its type library and its version.
fn parse_numbers(i: &[u8]) -> (result: Result<
    (&[u8], ((u32, u32), (u32, u16))),
    FormatError<&[u8]>,
>)
    ensures
        agrees(result, numbers(i@)),
{
    proof {
        reveal(numbers);
    }
    let (i, help_context) = parse_help_context(i)?;
    let (i, lib_flags) = parse_lib_flags(i)?;
    let (i, version) = parse_version(i)?;
    Ok((i, ((help_context, lib_flags), version)))
}

/// Reads the compilation constants, where there are any.
fn parse_constants_text(i: &[u8], code_page: u16) -> (result: Result<
    (&[u8], Option<String>),
    FormatError<&[u8]>,
>)
    requires
        readable(code_page, i@),
    ensures
        agrees(result, constants(i@, code_page)),
{
    proof {
        reveal(constants);
    }
    let (i, constants) = parse_constants(i)?;
    match constants {
        Some(constants) => {
            let constants = cp_to_string(&constants, code_page);
            let (i, _) = parse_constants_unicode(i)?;
            Ok((i, Some(constants)))
        },
        None => Ok((i, None)),
    }
}

/// Reads the version-independent information.
fn parse_information(i: &[u8]) -> (result: Result<(&[u8], Information), FormatError<&[u8]>>)
    requires
        texts_are_readable(i@),
    ensures
        agrees(result, information(i@)),
{
    proof {
        reveal(information);
        lemma_header_takes_input(i@);
    }
    let (i, (numbers, code_page)) = parse_header(i)?;
    let ((sys_kind, compat), (lcid, lcid_invoke)) = numbers;
    proof {
        lemma_texts_take_input(i@, code_page);
    }
    let (i, ((name, doc_string), help_file_1)) = parse_texts(i, code_page)?;
    proof {
        lemma_numbers_take_input(i@);
    }
    let (i, ((help_context, lib_flags), (version_major, version_minor))) = parse_numbers(i)?;
    let (i, constants) = parse_constants_text(i, code_page)?;
    Ok(
        (
            i,
            Information {
                sys_kind,
                compat,
                lcid,
                lcid_invoke,
                code_page,
                name,
                doc_string,
                help_file_1,
                help_context,
                lib_flags,
                version_major,
                version_minor,
                constants,
            },
        ),
    )
}

/// Reads a *dir* stream.
pub fn parse_project_information(i: &[u8]) -> (result: Result<
    (&[u8], ProjectInformation),
    FormatError<&[u8]>,
>)
    requires
        texts_are_readable(i@),
    ensures
        agrees(result, project_information(i@)),
{
    proof {
        reveal(project_information);
        lemma_information_is_readable(i@);
    }
    let (i, information) = parse_information(i)?;
    proof {
        lemma_references_take_input(i@, information.code_page, Seq::empty());
    }
    let (i, references) = parse_references(i, information.code_page)?;
    let (i, modules) = parse_modules(i, information.code_page)?;
    let (i, _) = tag_u16(i, 0x10)?;
    let (i, _) = tag_u32(i, 0)?;
    Ok((i, ProjectInformation { information, references, modules }))
}

/// Whether all text of a *dir* stream can be read, as far as any text is reached in it.
pub fn check_texts(i: &[u8]) -> (readable: bool)
    ensures
        readable == texts_are_readable(i@),
{
    match parse_header(i) {
        Ok((rest, (_, code_page))) => match parse_data_record(rest, 0x04) {
            Ok(_) => is_readable(code_page, i),
            Err(_) => true,
        },
        Err(_) => true,
    }
}

} // verus!
