//! The *dir* stream, told from the side of whoever writes it.

use vstd::prelude::*;

use crate::bytes::{data_record, u32_record};
use crate::code_page::text_of;
use crate::dir_stream::{
    constants, header, information, numbers, project_information, texts, ProjectInformationView,
};
use crate::format::FormatError;
use crate::information::{
    compat_record, doc_string_unicode_record, sys_kind_record, version_record, InformationView,
    SysKind,
};
use crate::modules::modules;
use crate::references::{reference, references, ReferenceView};
use crate::written_modules::{
    are_listed, lemma_empty_record, lemma_empty_record_is_there, lemma_listed_modules_are_there,
    lemma_modules_are_listed, lemma_modules_are_read, module_fits, module_value, with_all_modules,
    with_count, with_modules, with_optional, ModuleSource,
};
use crate::written_records::{
    fits, four, gives, lemma_four, lemma_missing, lemma_number_is_there, lemma_record,
    lemma_record_is_there, lemma_two, lemma_u16_record, lemma_u16_record_is_there, lemma_u32_record,
    lemma_u32_record_is_there, lemma_where_missing, record, rejects_at, starts_with, two,
};
use crate::written_references::{
    lemma_listed_references_are_there, lemma_reference_is_there, lemma_references_are_listed,
    lemma_references_are_read, name_fits, reference_fits, reference_value, with_name,
    with_references, ReferenceSource,
};

verus! {

/// What the records of the project's information hold.
pub struct InformationSource {
    pub sys_kind: SysKind,
    pub compat: Option<u32>,
    pub lcid: u32,
    pub lcid_invoke: u32,
    pub code_page: u16,
    pub name: Seq<u8>,
    pub doc_string: Seq<u8>,
    pub doc_string_unicode: Seq<u8>,
    pub help_file_1: Seq<u8>,
    pub help_file_2: Seq<u8>,
    pub help_context: u32,
    pub lib_flags: u32,
    pub version_major: u32,
    pub version_minor: u16,
    /// The compilation constants, in the project's code page and, where they are not missing, in
    /// UTF-16.
    pub constants: Option<(Seq<u8>, Option<Seq<u8>>)>,
}

/// The number that stands for a platform.
pub open spec fn sys_kind_number(sys_kind: SysKind) -> int {
    match sys_kind {
        SysKind::Win16 => 0,
        SysKind::Win32 => 1,
        SysKind::MacOs => 2,
        SysKind::Win64 => 3,
    }
}

/// The records in front of the project's texts, in front of other bytes.
pub open spec fn with_header(source: InformationSource, rest: Seq<u8>) -> Seq<u8> {
    record(0x01, four(sys_kind_number(source.sys_kind))) + with_optional(
        0x4a,
        match source.compat {
            Some(compat) => Some(four(compat as int)),
            None => None,
        },
        record(0x02, four(source.lcid as int)) + (record(0x14, four(source.lcid_invoke as int)) + (
        record(0x03, two(source.code_page as int)) + rest)),
    )
}

/// The records of the project's texts, in front of other bytes.
pub open spec fn with_texts(source: InformationSource, rest: Seq<u8>) -> Seq<u8> {
    record(0x04, source.name) + (record(0x05, source.doc_string) + (record(
        0x40,
        source.doc_string_unicode,
    ) + (record(0x06, source.help_file_1) + (record(0x3d, source.help_file_2) + rest))))
}

/// The records of the project's numbers, in front of other bytes. The size of the last one does not
/// count the minor version.
pub open spec fn with_numbers(source: InformationSource, rest: Seq<u8>) -> Seq<u8> {
    record(0x07, four(source.help_context as int)) + (record(
        0x08,
        four(source.lib_flags as int),
    ) + (record(0x09, four(source.version_major as int)) + (two(source.version_minor as int) + rest)))
}

/// The records of the compilation constants, in front of other bytes.
pub open spec fn with_constants(source: InformationSource, rest: Seq<u8>) -> Seq<u8> {
    match source.constants {
        Some((constants, unicode)) => record(0x0c, constants) + with_optional(0x3c, unicode, rest),
        None => rest,
    }
}

/// The records of the project's information, in front of other bytes.
pub open spec fn with_information(source: InformationSource, rest: Seq<u8>) -> Seq<u8> {
    with_header(source, with_texts(source, with_numbers(source, with_constants(source, rest))))
}

/// Whether the texts of the project's information fit in its records, and the description in UTF-16
/// takes two bytes for a code unit.
pub open spec fn information_fits(source: InformationSource) -> bool {
    &&& fits(source.name)
    &&& fits(source.doc_string)
    &&& fits(source.doc_string_unicode)
    &&& source.doc_string_unicode.len() % 2 == 0
    &&& fits(source.help_file_1)
    &&& fits(source.help_file_2)
    &&& source.constants matches Some((constants, unicode)) ==> {
        &&& fits(constants)
        &&& unicode matches Some(unicode) ==> fits(unicode)
    }
}

/// What the records of the project's information say.
pub open spec fn information_value(source: InformationSource) -> InformationView {
    InformationView {
        sys_kind: source.sys_kind,
        compat: source.compat,
        lcid: source.lcid,
        lcid_invoke: source.lcid_invoke,
        code_page: source.code_page,
        name: text_of(source.code_page, source.name),
        doc_string: text_of(source.code_page, source.doc_string),
        help_file_1: text_of(source.code_page, source.help_file_1),
        help_context: source.help_context,
        lib_flags: source.lib_flags,
        version_major: source.version_major,
        version_minor: source.version_minor,
        constants: match source.constants {
            Some((constants, _)) => Some(text_of(source.code_page, constants)),
            None => None,
        },
    }
}

/// The platform is read as what its number stands for.
pub proof fn lemma_sys_kind(sys_kind: SysKind, rest: Seq<u8>)
    ensures
        sys_kind_record(record(0x01, four(sys_kind_number(sys_kind))) + rest) == gives(
            rest,
            sys_kind,
        ),
{
    lemma_u32_record(0x01, sys_kind_number(sys_kind) as u32, rest);
}

/// A number that stands for no platform is rejected.
pub proof fn lemma_other_sys_kind_is_rejected(number: u32, rest: Seq<u8>)
    requires
        number > 3,
    ensures
        sys_kind_record(record(0x01, four(number as int)) + rest) == Err::<
            (Seq<u8>, SysKind),
            FormatError<Seq<u8>>,
        >(FormatError::UnexpectedValue),
{
    lemma_u32_record(0x01, number, rest);
}

/// The version is read as it is.
pub proof fn lemma_version(major: u32, minor: u16, rest: Seq<u8>)
    ensures
        version_record(record(0x09, four(major as int)) + (two(minor as int) + rest)) == gives(
            rest,
            (major, minor),
        ),
{
    lemma_two(minor, rest);
    lemma_u32_record(0x09, major, two(minor as int) + rest);
}

/// A description in UTF-16 with half a code unit is rejected.
pub proof fn lemma_odd_unicode_is_rejected(unicode: Seq<u8>, rest: Seq<u8>)
    requires
        fits(unicode),
    ensures
        unicode.len() % 2 == 0 ==> doc_string_unicode_record(record(0x40, unicode) + rest) == gives(
            rest,
            unicode,
        ),
        unicode.len() % 2 != 0 ==> doc_string_unicode_record(record(0x40, unicode) + rest) == Err::<
            (Seq<u8>, Seq<u8>),
            FormatError<Seq<u8>>,
        >(FormatError::UnexpectedValue),
{
    lemma_record(0x40, unicode, rest);
}

/// The records in front of the project's texts are read as what they say.
proof fn lemma_header(source: InformationSource, rest: Seq<u8>)
    ensures
        header(with_header(source, rest)) == gives(
            rest,
            (
                ((source.sys_kind, source.compat), (source.lcid, source.lcid_invoke)),
                source.code_page,
            ),
        ),
{
    reveal(header);
    let code_page = record(0x03, two(source.code_page as int)) + rest;
    let lcid_invoke = record(0x14, four(source.lcid_invoke as int)) + code_page;
    let lcid = record(0x02, four(source.lcid as int)) + lcid_invoke;
    lemma_u16_record(0x03, source.code_page, rest);
    lemma_u32_record(0x14, source.lcid_invoke, code_page);
    lemma_u32_record(0x02, source.lcid, lcid_invoke);
    match source.compat {
        Some(compat) => {
            lemma_u32_record(0x4a, compat, lcid);
            lemma_sys_kind(source.sys_kind, record(0x4a, four(compat as int)) + lcid);
        },
        None => {
            lemma_missing(lcid, 0x4a);
            lemma_sys_kind(source.sys_kind, lcid);
        },
    }
}

/// The records of the project's texts are read as what they say.
proof fn lemma_texts(source: InformationSource, rest: Seq<u8>, code_page: u16)
    requires
        information_fits(source),
    ensures
        texts(with_texts(source, rest), code_page) == gives(
            rest,
            (
                (text_of(code_page, source.name), text_of(code_page, source.doc_string)),
                text_of(code_page, source.help_file_1),
            ),
        ),
{
    reveal(texts);
    let help_file_2 = record(0x3d, source.help_file_2) + rest;
    let help_file_1 = record(0x06, source.help_file_1) + help_file_2;
    let unicode = record(0x40, source.doc_string_unicode) + help_file_1;
    let doc_string = record(0x05, source.doc_string) + unicode;
    lemma_record(0x3d, source.help_file_2, rest);
    lemma_record(0x06, source.help_file_1, help_file_2);
    lemma_odd_unicode_is_rejected(source.doc_string_unicode, help_file_1);
    lemma_record(0x05, source.doc_string, unicode);
    lemma_record(0x04, source.name, doc_string);
}

/// The records of the project's numbers are read as what they say.
proof fn lemma_numbers(source: InformationSource, rest: Seq<u8>)
    ensures
        numbers(with_numbers(source, rest)) == gives(
            rest,
            (
                (source.help_context, source.lib_flags),
                (source.version_major, source.version_minor),
            ),
        ),
{
    reveal(numbers);
    let version = record(0x09, four(source.version_major as int)) + (two(
        source.version_minor as int,
    ) + rest);
    let lib_flags = record(0x08, four(source.lib_flags as int)) + version;
    lemma_version(source.version_major, source.version_minor, rest);
    lemma_u32_record(0x08, source.lib_flags, version);
    lemma_u32_record(0x07, source.help_context, lib_flags);
}

/// The records of the compilation constants are read as what they say.
proof fn lemma_constants(source: InformationSource, rest: Seq<u8>, code_page: u16)
    requires
        information_fits(source),
        !starts_with(rest, 0x0c),
        !starts_with(rest, 0x3c),
    ensures
        constants(with_constants(source, rest), code_page) == gives(
            rest,
            match source.constants {
                Some((constants, _)) => Some(text_of(code_page, constants)),
                None => None,
            },
        ),
{
    reveal(constants);
    match source.constants {
        Some((constants, unicode)) => {
            lemma_record(0x0c, constants, with_optional(0x3c, unicode, rest));
            match unicode {
                Some(unicode) => lemma_record(0x3c, unicode, rest),
                None => lemma_missing(rest, 0x3c),
            }
        },
        None => lemma_missing(rest, 0x0c),
    }
}

/// The project's information is read as what its records say, where no records of compilation
/// constants follow.
pub proof fn lemma_information_is_read(source: InformationSource, rest: Seq<u8>)
    requires
        information_fits(source),
        !starts_with(rest, 0x0c),
        !starts_with(rest, 0x3c),
    ensures
        information(with_information(source, rest)) == gives(rest, information_value(source)),
{
    reveal(information);
    let constants = with_constants(source, rest);
    let numbers = with_numbers(source, constants);
    let texts = with_texts(source, numbers);
    lemma_constants(source, rest, source.code_page);
    lemma_numbers(source, constants);
    lemma_texts(source, numbers, source.code_page);
    lemma_header(source, texts);
}

/// What the records of a *dir* stream hold.
pub struct DirSource {
    pub information: InformationSource,
    pub references: Seq<ReferenceSource>,
    /// A name that no reference follows.
    pub stray_name: Option<(Seq<u8>, Seq<u8>)>,
    pub cookie: u16,
    pub modules: Seq<ModuleSource>,
}

/// A *dir* stream, in front of other bytes.
pub open spec fn with_dir(source: DirSource, rest: Seq<u8>) -> Seq<u8> {
    with_information(
        source.information,
        with_references(
            source.references,
            with_name(
                source.stray_name,
                with_all_modules(
                    source.modules,
                    source.cookie,
                    record(0x10, Seq::empty()) + rest,
                ),
            ),
        ),
    )
}

/// Whether the contents of a *dir* stream fit in its records.
pub open spec fn dir_fits(source: DirSource) -> bool {
    &&& information_fits(source.information)
    &&& forall|k: int|
        0 <= k < source.references.len() ==> reference_fits(#[trigger] source.references[k])
    &&& name_fits(source.stray_name)
    &&& source.modules.len() <= u16::MAX
    &&& forall|k: int| 0 <= k < source.modules.len() ==> module_fits(#[trigger] source.modules[k])
}

/// What a *dir* stream says of its project.
pub open spec fn dir_value(source: DirSource) -> ProjectInformationView {
    let code_page = source.information.code_page;
    ProjectInformationView {
        information: information_value(source.information),
        references: source.references.map_values(
            |reference: ReferenceSource| reference_value(reference, code_page),
        ),
        modules: source.modules.map_values(
            |module: ModuleSource| module_value(module, code_page),
        ),
    }
}

/// A *dir* stream is read as what its records say: the information, all references and all modules.
/// What stands behind its end is left.
pub proof fn lemma_dir_is_read(source: DirSource, rest: Seq<u8>)
    requires
        dir_fits(source),
    ensures
        project_information(with_dir(source, rest)) == gives(rest, dir_value(source)),
{
    reveal(project_information);
    let code_page = source.information.code_page;
    let end = record(0x10, Seq::empty()) + rest;
    let modules = with_all_modules(source.modules, source.cookie, end);
    let references = with_references(
        source.references,
        with_name(source.stray_name, modules),
    );
    lemma_empty_record(0x10, rest);
    lemma_two(0x10, four(0) + rest);
    lemma_four(0, rest);
    lemma_modules_are_read(source.modules, source.cookie, end, code_page);
    lemma_references_are_read(source.references, source.stray_name, modules, code_page);
    lemma_information_is_read(source.information, references);
}

/// The records in front of the texts of a *dir* stream are read as what they say.
pub proof fn lemma_header_is_read(source: DirSource, rest: Seq<u8>)
    ensures
        header(with_dir(source, rest)) matches Ok((_, (_, code_page))) && code_page
            == source.information.code_page,
{
    let information = source.information;
    let behind = with_references(
        source.references,
        with_name(
            source.stray_name,
            with_all_modules(source.modules, source.cookie, record(0x10, Seq::empty()) + rest),
        ),
    );
    lemma_header(
        information,
        with_texts(information, with_numbers(information, with_constants(information, behind))),
    );
}

/// The project's information of which a record is missing is rejected where the record would start.
pub proof fn lemma_information_without_record_is_rejected(
    source: InformationSource,
    input: Seq<u8>,
    code_page: u16,
)
    requires
        information_fits(source),
    ensures
        !starts_with(input, 0x01) ==> sys_kind_record(input) == rejects_at::<SysKind>(input),
        !starts_with(input, 0x02) && !starts_with(input, 0x4a) ==> header(
            record(0x01, four(sys_kind_number(source.sys_kind))) + input,
        ) == rejects_at::<(((SysKind, Option<u32>), (u32, u32)), u16)>(input),
        !starts_with(input, 0x04) ==> texts(input, code_page) == rejects_at::<
            ((Seq<char>, Seq<char>), Seq<char>),
        >(input),
        !starts_with(input, 0x05) ==> texts(record(0x04, source.name) + input, code_page)
            == rejects_at::<((Seq<char>, Seq<char>), Seq<char>)>(input),
        !starts_with(input, 0x40) ==> texts(
            record(0x04, source.name) + (record(0x05, source.doc_string) + input),
            code_page,
        ) == rejects_at::<((Seq<char>, Seq<char>), Seq<char>)>(input),
        !starts_with(input, 0x07) ==> numbers(input) == rejects_at::<((u32, u32), (u32, u16))>(
            input,
        ),
        !starts_with(input, 0x08) ==> numbers(
            record(0x07, four(source.help_context as int)) + input,
        ) == rejects_at::<((u32, u32), (u32, u16))>(input),
        !starts_with(input, 0x09) ==> numbers(
            record(0x07, four(source.help_context as int)) + (record(
                0x08,
                four(source.lib_flags as int),
            ) + input),
        ) == rejects_at::<((u32, u32), (u32, u16))>(input),
{
    reveal(header);
    reveal(texts);
    reveal(numbers);
    lemma_where_missing(input, 0x01);
    lemma_where_missing(input, 0x02);
    if !starts_with(input, 0x4a) {
        lemma_missing(input, 0x4a);
    }
    lemma_where_missing(input, 0x04);
    lemma_where_missing(input, 0x05);
    lemma_where_missing(input, 0x40);
    lemma_where_missing(input, 0x07);
    lemma_where_missing(input, 0x08);
    lemma_where_missing(input, 0x09);
    lemma_sys_kind(source.sys_kind, input);
    lemma_record(0x04, source.name, input);
    lemma_record(0x05, source.doc_string, input);
    lemma_record(0x04, source.name, record(0x05, source.doc_string) + input);
    lemma_u32_record(0x07, source.help_context, input);
    lemma_u32_record(0x08, source.lib_flags, input);
    lemma_u32_record(
        0x07,
        source.help_context,
        record(0x08, four(source.lib_flags as int)) + input,
    );
}

/// A *dir* stream is rejected as its information, its references or its modules are, and where its
/// end is missing, where it would start.
pub proof fn lemma_bad_dir_is_rejected(source: DirSource, input: Seq<u8>)
    requires
        dir_fits(source),
    ensures
        information(input) matches Err(error) ==> project_information(input) == Err::<
            (Seq<u8>, ProjectInformationView),
            FormatError<Seq<u8>>,
        >(error),
        !starts_with(input, 0x0c) && !starts_with(input, 0x3c) ==> (references(
            input,
            source.information.code_page,
        ) matches Err(error) ==> project_information(with_information(source.information, input))
            == Err::<(Seq<u8>, ProjectInformationView), FormatError<Seq<u8>>>(error)),
        starts_with(input, 0x0f) ==> (modules(
            input,
            source.information.code_page,
        ) matches Err(error) ==> project_information(
            with_information(source.information, with_references(source.references, input)),
        ) == Err::<(Seq<u8>, ProjectInformationView), FormatError<Seq<u8>>>(error)),
        !starts_with(input, 0x10) ==> project_information(
            with_information(
                source.information,
                with_references(
                    source.references,
                    with_all_modules(source.modules, source.cookie, input),
                ),
            ),
        ) == rejects_at::<ProjectInformationView>(input),
{
    reveal(project_information);
    let code_page = source.information.code_page;
    if !starts_with(input, 0x0c) && !starts_with(input, 0x3c) {
        lemma_information_is_read(source.information, input);
    }
    if starts_with(input, 0x0f) {
        lemma_references_are_read(source.references, None, input, code_page);
        lemma_information_is_read(source.information, with_references(source.references, input));
    }
    let modules = with_all_modules(source.modules, source.cookie, input);
    lemma_modules_are_read(source.modules, source.cookie, input, code_page);
    lemma_references_are_read(source.references, None, modules, code_page);
    lemma_information_is_read(source.information, with_references(source.references, modules));
    lemma_where_missing(input, 0x10);
}

/// Where the records in front of the project's texts are read, the input consists of them and what
/// is left.
proof fn lemma_header_is_there(input: Seq<u8>, source: InformationSource)
    ensures
        header(input) matches Ok(
            (rest, (((sys_kind, compat), (lcid, lcid_invoke)), code_page)),
        ) ==> input == with_header(
            InformationSource { sys_kind, compat, lcid, lcid_invoke, code_page, ..source },
            rest,
        ),
{
    reveal(header);
    if let Ok((rest, (((sys_kind, compat), (lcid, lcid_invoke)), code_page))) = header(input) {
        let (a, _) = u32_record(input, 0x01)->Ok_0;
        let b = compat_record(a)->Ok_0.0;
        let (c, _) = u32_record(b, 0x02)->Ok_0;
        let (d, _) = u32_record(c, 0x14)->Ok_0;
        lemma_u32_record_is_there(input, 0x01);
        lemma_u32_record_is_there(a, 0x4a);
        lemma_u32_record_is_there(b, 0x02);
        lemma_u32_record_is_there(c, 0x14);
        lemma_u16_record_is_there(d, 0x03);
    }
}

/// Where the records of the project's texts are read, the input consists of them and what is left.
proof fn lemma_texts_are_there(input: Seq<u8>, code_page: u16, source: InformationSource)
    ensures
        texts(input, code_page) matches Ok((rest, ((name, doc_string), help_file_1))) ==> exists|
            found: InformationSource,
        |
            {
                &&& input == #[trigger] with_texts(found, rest)
                &&& found == InformationSource {
                    name: found.name,
                    doc_string: found.doc_string,
                    doc_string_unicode: found.doc_string_unicode,
                    help_file_1: found.help_file_1,
                    help_file_2: found.help_file_2,
                    ..source
                }
                &&& name == text_of(code_page, found.name)
                &&& doc_string == text_of(code_page, found.doc_string)
                &&& help_file_1 == text_of(code_page, found.help_file_1)
                &&& fits(found.name)
                &&& fits(found.doc_string)
                &&& fits(found.doc_string_unicode)
                &&& found.doc_string_unicode.len() % 2 == 0
                &&& fits(found.help_file_1)
                &&& fits(found.help_file_2)
            },
{
    reveal(texts);
    if let Ok((rest, _)) = texts(input, code_page) {
        let (a, name) = data_record(input, 0x04)->Ok_0;
        let (b, doc_string) = data_record(a, 0x05)->Ok_0;
        let (c, doc_string_unicode) = data_record(b, 0x40)->Ok_0;
        let (d, help_file_1) = data_record(c, 0x06)->Ok_0;
        let (_, help_file_2) = data_record(d, 0x3d)->Ok_0;
        lemma_record_is_there(input, 0x04);
        lemma_record_is_there(a, 0x05);
        lemma_record_is_there(b, 0x40);
        lemma_record_is_there(c, 0x06);
        lemma_record_is_there(d, 0x3d);
        let found = InformationSource {
            name,
            doc_string,
            doc_string_unicode,
            help_file_1,
            help_file_2,
            ..source
        };
        assert(with_texts(found, rest) == record(0x04, name) + (record(0x05, doc_string) + (record(
            0x40,
            doc_string_unicode,
        ) + (record(0x06, help_file_1) + (record(0x3d, help_file_2) + rest)))));
        assert(input == with_texts(found, rest));
    }
}

/// Where the records of the project's numbers are read, the input consists of them and what is
/// left.
proof fn lemma_numbers_are_there(input: Seq<u8>, source: InformationSource)
    ensures
        numbers(input) matches Ok(
            (rest, ((help_context, lib_flags), (version_major, version_minor))),
        ) ==> input == with_numbers(
            InformationSource { help_context, lib_flags, version_major, version_minor, ..source },
            rest,
        ),
{
    reveal(numbers);
    if let Ok((rest, _)) = numbers(input) {
        let (a, _) = u32_record(input, 0x07)->Ok_0;
        let (b, _) = u32_record(a, 0x08)->Ok_0;
        let (c, _) = u32_record(b, 0x09)->Ok_0;
        lemma_u32_record_is_there(input, 0x07);
        lemma_u32_record_is_there(a, 0x08);
        lemma_u32_record_is_there(b, 0x09);
        lemma_number_is_there(c);
    }
}

/// Where the records of the compilation constants are read, the input consists of them and what is
/// left.
proof fn lemma_constants_are_there(input: Seq<u8>, code_page: u16, source: InformationSource)
    ensures
        constants(input, code_page) matches Ok((rest, value)) ==> exists|found: InformationSource|
            {
                &&& input == #[trigger] with_constants(found, rest)
                &&& found == InformationSource { constants: found.constants, ..source }
                &&& value == match found.constants {
                    Some((constants, _)) => Some(text_of(code_page, constants)),
                    None => None,
                }
                &&& found.constants matches Some((constants, unicode)) ==> {
                    &&& fits(constants)
                    &&& unicode matches Some(unicode) ==> fits(unicode)
                }
            },
{
    reveal(self::constants);
    if let Ok((rest, _)) = self::constants(input, code_page) {
        lemma_record_is_there(input, 0x0c);
        match data_record(input, 0x0c) {
            Ok((a, constants)) => {
                lemma_record_is_there(a, 0x3c);
                let unicode: Option<Seq<u8>> = match data_record(a, 0x3c) {
                    Ok((_, unicode)) => Some(unicode),
                    Err(_) => None,
                };
                let found = InformationSource {
                    constants: Some((constants, unicode)),
                    ..source
                };
                assert(input == with_constants(found, rest));
            },
            Err(_) => {
                let found = InformationSource { constants: None, ..source };
                assert(input == with_constants(found, rest));
            },
        }
    }
}

/// Where the project's information is read, the input consists of its records and what is left, and
/// it is read as what they say.
pub proof fn lemma_information_is_there(input: Seq<u8>)
    ensures
        information(input) matches Ok((rest, value)) ==> exists|source: InformationSource|
            {
                &&& information_fits(source)
                &&& input == #[trigger] with_information(source, rest)
                &&& value == information_value(source)
            },
{
    reveal(information);
    if let Ok((rest, value)) = information(input) {
        let (a, start) = header(input)->Ok_0;
        let (b, _) = texts(a, start.1)->Ok_0;
        let (c, found) = numbers(b)->Ok_0;
        let start_source = InformationSource {
            sys_kind: value.sys_kind,
            compat: value.compat,
            lcid: value.lcid,
            lcid_invoke: value.lcid_invoke,
            code_page: value.code_page,
            name: Seq::empty(),
            doc_string: Seq::empty(),
            doc_string_unicode: Seq::empty(),
            help_file_1: Seq::empty(),
            help_file_2: Seq::empty(),
            help_context: value.help_context,
            lib_flags: value.lib_flags,
            version_major: value.version_major,
            version_minor: value.version_minor,
            constants: None,
        };
        lemma_texts_are_there(a, start.1, start_source);
        let with_text = choose|found: InformationSource|
            {
                &&& a == #[trigger] with_texts(found, b)
                &&& found == InformationSource {
                    name: found.name,
                    doc_string: found.doc_string,
                    doc_string_unicode: found.doc_string_unicode,
                    help_file_1: found.help_file_1,
                    help_file_2: found.help_file_2,
                    ..start_source
                }
                &&& value.name == text_of(start.1, found.name)
                &&& value.doc_string == text_of(start.1, found.doc_string)
                &&& value.help_file_1 == text_of(start.1, found.help_file_1)
                &&& fits(found.name)
                &&& fits(found.doc_string)
                &&& fits(found.doc_string_unicode)
                &&& found.doc_string_unicode.len() % 2 == 0
                &&& fits(found.help_file_1)
                &&& fits(found.help_file_2)
            };
        lemma_constants_are_there(c, start.1, with_text);
        let source = choose|found: InformationSource|
            {
                &&& c == #[trigger] with_constants(found, rest)
                &&& found == InformationSource { constants: found.constants, ..with_text }
                &&& value.constants == match found.constants {
                    Some((constants, _)) => Some(text_of(start.1, constants)),
                    None => None,
                }
                &&& found.constants matches Some((constants, unicode)) ==> {
                    &&& fits(constants)
                    &&& unicode matches Some(unicode) ==> fits(unicode)
                }
            };
        lemma_header_is_there(input, source);
        lemma_numbers_are_there(b, source);
        assert(input == with_header(source, a));
        assert(a == with_texts(source, b));
        assert(b == with_numbers(source, c));
        assert(input == with_information(source, rest));
    }
}

/// Where a *dir* stream is read, it consists of its records and what is left, and it is read as
/// what they say. So nothing else is accepted, and nothing is read that the records do not say.
pub proof fn lemma_dir_is_there(input: Seq<u8>)
    ensures
        project_information(input) matches Ok((rest, value)) ==> exists|source: DirSource|
            {
                &&& dir_fits(source)
                &&& input == #[trigger] with_dir(source, rest)
                &&& value == dir_value(source)
            },
{
    reveal(project_information);
    if let Ok((rest, value)) = project_information(input) {
        let code_page = value.information.code_page;
        let (a, _) = information(input)->Ok_0;
        let (b, _) = references(a, code_page)->Ok_0;
        let (c, _) = modules(b, code_page)->Ok_0;
        lemma_information_is_there(input);
        let information = choose|source: InformationSource|
            {
                &&& information_fits(source)
                &&& input == #[trigger] with_information(source, a)
                &&& value.information == information_value(source)
            };
        lemma_references_are_listed(a, code_page);
        let inputs = choose|inputs: Seq<Seq<u8>>|
            {
                &&& #[trigger] crate::written_references::are_listed(
                    inputs,
                    value.references,
                    code_page,
                )
                &&& inputs[0] == a
                &&& reference(inputs[value.references.len() as int], code_page) == gives(
                    b,
                    None::<ReferenceView>,
                )
            };
        lemma_listed_references_are_there(inputs, value.references, code_page);
        let end_of_references = inputs[value.references.len() as int];
        let references = choose|sources: Seq<ReferenceSource>|
            {
                &&& sources.len() == value.references.len()
                &&& inputs[0] == #[trigger] with_references(sources, end_of_references)
                &&& forall|k: int| 0 <= k < sources.len() ==> reference_fits(#[trigger] sources[k])
                &&& forall|k: int|
                    0 <= k < sources.len() ==> reference_value(#[trigger] sources[k], code_page)
                        == value.references[k]
            };
        lemma_reference_is_there(end_of_references, code_page);
        let stray_name = choose|name: Option<(Seq<u8>, Seq<u8>)>|
            name_fits(name) && end_of_references == #[trigger] with_name(name, b);
        lemma_modules_are_listed(b, code_page);
        let (inputs, cookie) = choose|inputs: Seq<Seq<u8>>, cookie: u16|
            {
                &&& #[trigger] are_listed(inputs, value.modules, code_page)
                &&& value.modules.len() <= u16::MAX
                &&& b == #[trigger] with_count(value.modules.len(), cookie, inputs[0])
                &&& inputs[value.modules.len() as int] == c
            };
        lemma_listed_modules_are_there(inputs, value.modules, code_page);
        let modules = choose|sources: Seq<ModuleSource>|
            {
                &&& sources.len() == value.modules.len()
                &&& inputs[0] == #[trigger] with_modules(sources, c)
                &&& forall|k: int| 0 <= k < sources.len() ==> module_fits(#[trigger] sources[k])
                &&& forall|k: int|
                    0 <= k < sources.len() ==> module_value(#[trigger] sources[k], code_page)
                        == value.modules[k]
            };
        lemma_empty_record_is_there(c, 0x10);
        let source = DirSource { information, references, stray_name, cookie, modules };
        assert(c == record(0x10, Seq::empty()) + rest);
        assert(b == with_all_modules(modules, cookie, c));
        assert(a == with_references(references, with_name(stray_name, b)));
        assert(input == with_dir(source, rest));
        assert(value.references == dir_value(source).references);
        assert(value.modules == dir_value(source).modules);
    }
}

} // verus!
