//! The records of the references, told from the side of whoever writes them.

use vstd::prelude::*;

use crate::bytes::{data_field, data_record, sized_field, u16_field, u32_field};
use crate::code_page::text_of;
use crate::format::FormatError;
use crate::references::{
    control_original, control_record, extended_record, lemma_reference_takes_input, name_pair,
    nested_record, original_record, project_fields, reference, reference_name, references,
    references_from, registered_record, reserved, unnamed_reference, ControlView,
    ExternalProjectView, ReferenceView, RegisteredView,
};
use crate::written_records::{
    fits, four, gives, lemma_bytes, lemma_four, lemma_missing, lemma_number_is_there, lemma_record,
    lemma_record_is_there, lemma_sized, lemma_sized_is_there, lemma_two, record, starts_with, two,
};

verus! {

/// What the records of a twiddled type library and its extended type library hold.
pub struct ControlSource {
    /// The size of the first record, which is not looked at.
    pub twiddled_size: u32,
    pub libid_twiddled: Seq<u8>,
    /// The name of the extended type library, in the project's code page and in UTF-16.
    pub name_extended: Option<(Seq<u8>, Seq<u8>)>,
    /// The size of the second record, which is not looked at.
    pub extended_size: u32,
    pub libid_extended: Seq<u8>,
    pub guid: Seq<u8>,
    pub cookie: u32,
}

/// What the records of a reference hold, beside its name.
pub enum KindSource {
    Control(ControlSource),
    Original(Seq<u8>),
    /// The size of the record, which is not looked at, and the type library.
    Registered(u32, Seq<u8>),
    /// The size of the record, which is not looked at, the absolute and the relative path, and the
    /// version.
    Project(u32, Seq<u8>, Seq<u8>, u32, u16),
}

/// What the records of a reference hold.
pub struct ReferenceSource {
    /// The name, in the project's code page and in UTF-16.
    pub name: Option<(Seq<u8>, Seq<u8>)>,
    pub kind: KindSource,
}

/// The two records of a name, in front of other bytes.
pub open spec fn with_name(name: Option<(Seq<u8>, Seq<u8>)>, rest: Seq<u8>) -> Seq<u8> {
    match name {
        Some((text, unicode)) => record(0x16, text) + (record(0x3e, unicode) + rest),
        None => rest,
    }
}

/// Data with a size of its own behind the size of its record, in front of other bytes.
pub open spec fn with_nested(id: u16, size: u32, data: Seq<u8>, rest: Seq<u8>) -> Seq<u8> {
    two(id as int) + (four(size as int) + (four(data.len() as int) + data + rest))
}

/// Six bytes that are zero, in front of other bytes.
pub open spec fn with_zeros(rest: Seq<u8>) -> Seq<u8> {
    four(0) + (two(0) + rest)
}

/// The second record of a twiddled type library, in front of other bytes.
pub open spec fn with_extended(source: ControlSource, rest: Seq<u8>) -> Seq<u8> {
    with_nested(
        0x30,
        source.extended_size,
        source.libid_extended,
        with_zeros(source.guid + (four(source.cookie as int) + rest)),
    )
}

/// The records of a twiddled type library, in front of other bytes.
pub open spec fn with_control(source: ControlSource, rest: Seq<u8>) -> Seq<u8> {
    with_nested(
        0x2f,
        source.twiddled_size,
        source.libid_twiddled,
        with_zeros(with_name(source.name_extended, with_extended(source, rest))),
    )
}

/// The records of a reference beside its name, in front of other bytes.
pub open spec fn with_kind(kind: KindSource, rest: Seq<u8>) -> Seq<u8> {
    match kind {
        KindSource::Control(source) => with_control(source, rest),
        KindSource::Original(libid) => record(0x33, libid) + rest,
        KindSource::Registered(size, libid) => with_nested(0x0d, size, libid, with_zeros(rest)),
        KindSource::Project(size, absolute, relative, major, minor) => with_nested(
            0x0e,
            size,
            absolute,
            four(relative.len() as int) + relative + (four(major as int) + (two(minor as int)
                + rest)),
        ),
    }
}

/// The records of a reference, in front of other bytes.
pub open spec fn with_reference(source: ReferenceSource, rest: Seq<u8>) -> Seq<u8> {
    with_name(source.name, with_kind(source.kind, rest))
}

/// Whether a name fits in its records.
pub open spec fn name_fits(name: Option<(Seq<u8>, Seq<u8>)>) -> bool {
    name matches Some((text, unicode)) ==> fits(text) && fits(unicode)
}

/// Whether the texts of a reference fit in its records, and an identifier has sixteen bytes.
pub open spec fn reference_fits(source: ReferenceSource) -> bool {
    &&& name_fits(source.name)
    &&& match source.kind {
        KindSource::Control(control) => {
            &&& fits(control.libid_twiddled)
            &&& name_fits(control.name_extended)
            &&& fits(control.libid_extended)
            &&& control.guid.len() == 16
        },
        KindSource::Original(libid) => fits(libid),
        KindSource::Registered(_, libid) => fits(libid),
        KindSource::Project(_, absolute, relative, _, _) => fits(absolute) && fits(relative),
    }
}

/// What the records of a name say.
pub open spec fn name_value(name: Option<(Seq<u8>, Seq<u8>)>, code_page: u16) -> Option<Seq<char>> {
    match name {
        Some((text, _)) => Some(text_of(code_page, text)),
        None => None,
    }
}

/// What the records of a reference say.
pub open spec fn reference_value(source: ReferenceSource, code_page: u16) -> ReferenceView {
    let name = name_value(source.name, code_page);
    match source.kind {
        KindSource::Control(control) => ReferenceView::Control(
            ControlView {
                name,
                libid_original: None,
                libid_twiddled: text_of(code_page, control.libid_twiddled),
                name_extended: name_value(control.name_extended, code_page),
                libid_extended: text_of(code_page, control.libid_extended),
                guid: control.guid,
                cookie: control.cookie,
            },
        ),
        KindSource::Original(libid) => ReferenceView::Original {
            name,
            libid_original: text_of(code_page, libid),
        },
        KindSource::Registered(_, libid) => ReferenceView::Registered(
            RegisteredView { name, libid: text_of(code_page, libid) },
        ),
        KindSource::Project(_, absolute, relative, major, minor) => ReferenceView::Project(
            ExternalProjectView {
                name,
                libid_absolute: text_of(code_page, absolute),
                libid_relative: text_of(code_page, relative),
                major_version: major,
                minor_version: minor,
            },
        ),
    }
}

/// Nested data is read as it is, whatever the size of its record.
pub proof fn lemma_nested(id: u16, size: u32, data: Seq<u8>, rest: Seq<u8>)
    requires
        fits(data),
    ensures
        nested_record(with_nested(id, size, data, rest), id) == gives(rest, data),
        u16_field(with_nested(id, size, data, rest)) matches Ok((_, found)) && found == id,
        starts_with(with_nested(id, size, data, rest), id),
{
    let sized = four(data.len() as int) + data + rest;
    lemma_sized(data, rest);
    lemma_four(size, sized);
    lemma_two(id, four(size as int) + sized);
}

/// Six bytes that are zero are read.
pub proof fn lemma_zeros(rest: Seq<u8>)
    ensures
        reserved(with_zeros(rest)) == gives(rest, ()),
{
    lemma_two(0, rest);
    lemma_four(0, two(0) + rest);
}

/// The name of a reference is read in the project's code page, and is missing where there are no
/// records for it.
pub proof fn lemma_name(name: Option<(Seq<u8>, Seq<u8>)>, rest: Seq<u8>, code_page: u16)
    requires
        name_fits(name),
        name is None ==> !starts_with(rest, 0x16),
    ensures
        reference_name(with_name(name, rest), code_page) == gives(
            rest,
            name_value(name, code_page),
        ),
{
    match name {
        Some((text, unicode)) => {
            lemma_record(0x3e, unicode, rest);
            lemma_record(0x16, text, record(0x3e, unicode) + rest);
        },
        None => {
            lemma_missing(rest, 0x16);
        },
    }
}

/// An extended type library is read as what its record says.
proof fn lemma_extended(
    source: ControlSource,
    rest: Seq<u8>,
    code_page: u16,
    libid_original: Option<Seq<char>>,
    libid_twiddled: Seq<char>,
    name_extended: Option<Seq<char>>,
)
    requires
        fits(source.libid_extended),
        source.guid.len() == 16,
    ensures
        extended_record(
            with_extended(source, rest),
            code_page,
            libid_original,
            libid_twiddled,
            name_extended,
        ) == gives(
            rest,
            ControlView {
                name: None,
                libid_original,
                libid_twiddled,
                name_extended,
                libid_extended: text_of(code_page, source.libid_extended),
                guid: source.guid,
                cookie: source.cookie,
            },
        ),
{
    reveal(extended_record);
    let cookie = four(source.cookie as int) + rest;
    let guid = source.guid + cookie;
    lemma_four(source.cookie, rest);
    lemma_bytes(source.guid, cookie);
    lemma_zeros(guid);
    lemma_nested(0x30, source.extended_size, source.libid_extended, with_zeros(guid));
}

/// A twiddled type library is read as what its records say, behind those of the original type
/// library, where there are any.
pub proof fn lemma_control(
    original: Option<Seq<u8>>,
    source: ControlSource,
    rest: Seq<u8>,
    code_page: u16,
)
    requires
        control_fits(original, source),
    ensures
        control_record(with_original(original, source, rest), code_page) == gives(
            rest,
            control_value(original, source, code_page),
        ),
{
    reveal(control_record);
    let extended = with_extended(source, rest);
    let name = with_name(source.name_extended, extended);
    let control = with_control(source, rest);
    let name_extended = name_value(source.name_extended, code_page);
    let libid_twiddled = text_of(code_page, source.libid_twiddled);
    let cookie = four(source.cookie as int) + rest;
    lemma_nested(
        0x30,
        source.extended_size,
        source.libid_extended,
        with_zeros(source.guid + cookie),
    );
    lemma_name(source.name_extended, extended, code_page);
    lemma_zeros(name);
    lemma_nested(0x2f, source.twiddled_size, source.libid_twiddled, with_zeros(name));
    match original {
        Some(libid) => {
            lemma_record(0x33, libid, control);
            lemma_identifier(record(0x33, libid) + control, 0x33);
            lemma_extended(
                source,
                rest,
                code_page,
                Some(text_of(code_page, libid)),
                libid_twiddled,
                name_extended,
            );
        },
        None => {
            lemma_extended(source, rest, code_page, None, libid_twiddled, name_extended);
        },
    }
}

/// An input that starts with an identifier is read as starting with it.
pub proof fn lemma_identifier(input: Seq<u8>, id: u16)
    ensures
        starts_with(input, id) <==> (u16_field(input) matches Ok((_, found)) && found == id),
{
}

/// A reference without a name is read as what its records say.
proof fn lemma_kind(
    kind: KindSource,
    name: Option<(Seq<u8>, Seq<u8>)>,
    rest: Seq<u8>,
    code_page: u16,
)
    requires
        reference_fits(ReferenceSource { name, kind }),
    ensures
        unnamed_reference(with_kind(kind, rest), code_page, name_value(name, code_page)) == gives(
            rest,
            Some(reference_value(ReferenceSource { name, kind }, code_page)),
        ),
        !starts_with(with_kind(kind, rest), 0x16),
        !starts_with(with_kind(kind, rest), 0x0c),
        !starts_with(with_kind(kind, rest), 0x3c),
{
    match kind {
        KindSource::Control(source) => {
            let behind = with_zeros(with_name(source.name_extended, with_extended(source, rest)));
            lemma_nested(0x2f, source.twiddled_size, source.libid_twiddled, behind);
            lemma_control(None, source, rest, code_page);
        },
        KindSource::Original(libid) => {
            lemma_record(0x33, libid, rest);
            lemma_identifier(record(0x33, libid) + rest, 0x33);
        },
        KindSource::Registered(size, libid) => {
            lemma_zeros(rest);
            lemma_nested(0x0d, size, libid, with_zeros(rest));
        },
        KindSource::Project(size, absolute, relative, major, minor) => {
            let minor_field = two(minor as int) + rest;
            let major_field = four(major as int) + minor_field;
            lemma_two(minor, rest);
            lemma_four(major, minor_field);
            lemma_sized(relative, major_field);
            lemma_nested(
                0x0e,
                size,
                absolute,
                four(relative.len() as int) + relative + major_field,
            );
        },
    }
}

/// A reference of any kind is read as what its records say.
pub proof fn lemma_reference_is_read(source: ReferenceSource, rest: Seq<u8>, code_page: u16)
    requires
        reference_fits(source),
    ensures
        reference(with_reference(source, rest), code_page) == gives(
            rest,
            Some(reference_value(source, code_page)),
        ),
        !starts_with(with_reference(source, rest), 0x0c),
        !starts_with(with_reference(source, rest), 0x3c),
{
    reveal(reference);
    let kind = with_kind(source.kind, rest);
    lemma_kind(source.kind, source.name, rest, code_page);
    lemma_name(source.name, kind, code_page);
    if let Some((text, unicode)) = source.name {
        lemma_record(0x16, text, record(0x3e, unicode) + kind);
    }
}

/// The name of a reference.
pub open spec fn name_of(value: ReferenceView) -> Option<Seq<char>> {
    match value {
        ReferenceView::Control(control) => control.name,
        ReferenceView::Original { name, .. } => name,
        ReferenceView::Registered(registered) => registered.name,
        ReferenceView::Project(project) => project.name,
    }
}

/// A reference with another name.
pub open spec fn renamed(value: ReferenceView, name: Option<Seq<char>>) -> ReferenceView {
    match value {
        ReferenceView::Control(control) => ReferenceView::Control(ControlView { name, ..control }),
        ReferenceView::Original { libid_original, .. } => ReferenceView::Original {
            name,
            libid_original,
        },
        ReferenceView::Registered(registered) => ReferenceView::Registered(
            RegisteredView { name, ..registered },
        ),
        ReferenceView::Project(project) => ReferenceView::Project(
            ExternalProjectView { name, ..project },
        ),
    }
}

/// A reference without the records of a name has none, and with the records in front of it it has
/// the name that they hold. Beside its name, a reference of any kind is what it is without them.
pub proof fn lemma_name_is_added(input: Seq<u8>, text: Seq<u8>, unicode: Seq<u8>, code_page: u16)
    requires
        !starts_with(input, 0x16),
        fits(text),
        fits(unicode),
    ensures
        ({
            let named = reference(with_name(Some((text, unicode)), input), code_page);
            match reference(input, code_page) {
                Ok((rest, Some(value))) => {
                    &&& name_of(value) is None
                    &&& named == gives(
                        rest,
                        Some(renamed(value, Some(text_of(code_page, text)))),
                    )
                },
                Ok((rest, None)) => named == gives(rest, None::<ReferenceView>),
                Err(error) => named == Err::<
                    (Seq<u8>, Option<ReferenceView>),
                    FormatError<Seq<u8>>,
                >(error),
            }
        }),
{
    reveal(reference);
    lemma_name(None, input, code_page);
    lemma_name(Some((text, unicode)), input, code_page);
    assert(control_record(input, code_page) matches Ok((_, value)) ==> value.name is None) by {
        reveal(control_record);
        reveal(extended_record);
    }
}

/// A name in the project's code page without one in UTF-16 behind it is no name, and rejected.
pub proof fn lemma_half_name_is_rejected(text: Seq<u8>, rest: Seq<u8>, code_page: u16)
    requires
        fits(text),
        !starts_with(rest, 0x3e),
    ensures
        reference_name(record(0x16, text) + rest, code_page) == gives(
            record(0x16, text) + rest,
            None::<Seq<char>>,
        ),
        reference(record(0x16, text) + rest, code_page) == Err::<
            (Seq<u8>, Option<ReferenceView>),
            FormatError<Seq<u8>>,
        >(FormatError::UnexpectedValue),
{
    reveal(reference);
    let input = record(0x16, text) + rest;
    lemma_record(0x16, text, rest);
    lemma_missing(rest, 0x3e);
    lemma_identifier(input, 0x16);
}

/// The references end in front of the records of the modules. A name that no reference follows is
/// dropped.
pub proof fn lemma_end_of_references(
    name: Option<(Seq<u8>, Seq<u8>)>,
    rest: Seq<u8>,
    code_page: u16,
)
    requires
        name_fits(name),
        starts_with(rest, 0x0f),
    ensures
        reference(with_name(name, rest), code_page) == gives(rest, None::<ReferenceView>),
        !starts_with(with_name(name, rest), 0x0c),
        !starts_with(with_name(name, rest), 0x3c),
{
    reveal(reference);
    lemma_name(name, rest, code_page);
    lemma_identifier(rest, 0x0f);
    if let Some((text, unicode)) = name {
        lemma_record(0x16, text, record(0x3e, unicode) + rest);
    }
}

/// A record that is none of a reference, nor of the modules, is rejected.
pub proof fn lemma_other_record_is_rejected(input: Seq<u8>, code_page: u16)
    requires
        input.len() >= 2,
        !starts_with(input, 0x16),
        !starts_with(input, 0x2f),
        !starts_with(input, 0x33),
        !starts_with(input, 0x0d),
        !starts_with(input, 0x0e),
        !starts_with(input, 0x0f),
    ensures
        reference(input, code_page) == Err::<
            (Seq<u8>, Option<ReferenceView>),
            FormatError<Seq<u8>>,
        >(FormatError::UnexpectedValue),
{
    reveal(reference);
    lemma_name(None, input, code_page);
    lemma_identifier(input, 0x2f);
    lemma_identifier(input, 0x33);
    lemma_identifier(input, 0x0d);
    lemma_identifier(input, 0x0e);
    lemma_identifier(input, 0x0f);
}

/// The records of references, in front of other bytes.
pub open spec fn with_references(sources: Seq<ReferenceSource>, rest: Seq<u8>) -> Seq<u8>
    decreases sources.len(),
{
    if sources.len() == 0 {
        rest
    } else {
        with_reference(sources[0], with_references(sources.skip(1), rest))
    }
}

/// Reading references behind others gives them behind the others.
proof fn lemma_further_references_are_read(
    sources: Seq<ReferenceSource>,
    name: Option<(Seq<u8>, Seq<u8>)>,
    rest: Seq<u8>,
    code_page: u16,
    found: Seq<ReferenceView>,
)
    requires
        forall|k: int| 0 <= k < sources.len() ==> reference_fits(#[trigger] sources[k]),
        name_fits(name),
        starts_with(rest, 0x0f),
    ensures
        references_from(with_references(sources, with_name(name, rest)), code_page, found) == gives(
            rest,
            found + sources.map_values(
                |source: ReferenceSource| reference_value(source, code_page),
            ),
        ),
        !starts_with(with_references(sources, with_name(name, rest)), 0x0c),
        !starts_with(with_references(sources, with_name(name, rest)), 0x3c),
    decreases sources.len(),
{
    let values = sources.map_values(|source: ReferenceSource| reference_value(source, code_page));
    lemma_reference_takes_input(with_references(sources, with_name(name, rest)), code_page);
    if sources.len() == 0 {
        lemma_end_of_references(name, rest, code_page);
        assert(found + values == found);
    } else {
        let behind = sources.skip(1);
        let others = behind.map_values(
            |source: ReferenceSource| reference_value(source, code_page),
        );
        let value = reference_value(sources[0], code_page);
        assert(reference_fits(sources[0]));
        lemma_reference_is_read(
            sources[0],
            with_references(behind, with_name(name, rest)),
            code_page,
        );
        assert forall|k: int| 0 <= k < behind.len() implies reference_fits(
            #[trigger] behind[k],
        ) by {
            assert(reference_fits(sources[k + 1]));
        }
        lemma_further_references_are_read(behind, name, rest, code_page, found.push(value));
        assert(found.push(value) + others == found + values);
    }
}

/// All references are read, in the order of their records, each as what its records say. A name
/// that no reference follows is dropped.
pub proof fn lemma_references_are_read(
    sources: Seq<ReferenceSource>,
    name: Option<(Seq<u8>, Seq<u8>)>,
    rest: Seq<u8>,
    code_page: u16,
)
    requires
        forall|k: int| 0 <= k < sources.len() ==> reference_fits(#[trigger] sources[k]),
        name_fits(name),
        starts_with(rest, 0x0f),
    ensures
        references(with_references(sources, with_name(name, rest)), code_page) == gives(
            rest,
            sources.map_values(|source: ReferenceSource| reference_value(source, code_page)),
        ),
        !starts_with(with_references(sources, with_name(name, rest)), 0x0c),
        !starts_with(with_references(sources, with_name(name, rest)), 0x3c),
{
    let values = sources.map_values(|source: ReferenceSource| reference_value(source, code_page));
    lemma_further_references_are_read(sources, name, rest, code_page, Seq::empty());
    assert(Seq::<ReferenceView>::empty() + values == values);
}

/// Where nested data is read, the input consists of its record and what is left.
pub proof fn lemma_nested_is_there(input: Seq<u8>, id: u16)
    ensures
        nested_record(input, id) matches Ok((rest, data)) ==> fits(data) && exists|size: u32|
            input == #[trigger] with_nested(id, size, data, rest),
{
    if let Ok((rest, data)) = nested_record(input, id) {
        let behind = input.skip(2);
        let (sized, size) = u32_field(behind)->Ok_0;
        lemma_number_is_there(input);
        lemma_number_is_there(behind);
        lemma_sized_is_there(sized);
        assert(input == with_nested(id, size, data, rest));
    }
}

/// Where six bytes that are zero are read, the input consists of them and what is left.
pub proof fn lemma_zeros_are_there(input: Seq<u8>)
    ensures
        reserved(input) matches Ok((rest, _)) ==> input == with_zeros(rest),
{
    lemma_number_is_there(input);
    lemma_number_is_there(input.skip(4));
}

/// The input consists of the records of the name that is read and what is left.
pub proof fn lemma_name_is_there(input: Seq<u8>, code_page: u16)
    ensures
        reference_name(input, code_page) matches Ok((rest, value)) ==> exists|
            name: Option<(Seq<u8>, Seq<u8>)>,
        |
            {
                &&& name_fits(name)
                &&& input == #[trigger] with_name(name, rest)
                &&& value == name_value(name, code_page)
            },
{
    if let Ok((rest, value)) = reference_name(input, code_page) {
        match name_pair(input) {
            Ok((_, (text, unicode))) => {
                lemma_record_is_there(input, 0x16);
                lemma_record_is_there(data_record(input, 0x16)->Ok_0.0, 0x3e);
                let name = Some((text, unicode));
                assert(input == with_name(name, rest));
            },
            Err(_) => {
                let name = None::<(Seq<u8>, Seq<u8>)>;
                assert(input == with_name(name, rest));
            },
        }
    }
}

/// Where an extended type library is read, the input consists of its record and what is left.
proof fn lemma_extended_is_there(
    input: Seq<u8>,
    code_page: u16,
    libid_original: Option<Seq<char>>,
    libid_twiddled: Seq<char>,
    name_extended: Option<Seq<char>>,
    twiddled_size: u32,
    libid: Seq<u8>,
    name: Option<(Seq<u8>, Seq<u8>)>,
)
    ensures
        extended_record(
            input,
            code_page,
            libid_original,
            libid_twiddled,
            name_extended,
        ) matches Ok((rest, value)) ==> exists|source: ControlSource|
            {
                &&& source.twiddled_size == twiddled_size
                &&& source.libid_twiddled == libid
                &&& source.name_extended == name
                &&& fits(source.libid_extended)
                &&& source.guid.len() == 16
                &&& input == #[trigger] with_extended(source, rest)
                &&& value == ControlView {
                    name: None,
                    libid_original,
                    libid_twiddled,
                    name_extended,
                    libid_extended: text_of(code_page, source.libid_extended),
                    guid: source.guid,
                    cookie: source.cookie,
                }
            },
{
    reveal(extended_record);
    if let Ok((rest, value)) = extended_record(
        input,
        code_page,
        libid_original,
        libid_twiddled,
        name_extended,
    ) {
        let (a, libid_extended) = nested_record(input, 0x30)->Ok_0;
        lemma_nested_is_there(input, 0x30);
        let extended_size = choose|size: u32|
            input == #[trigger] with_nested(0x30, size, libid_extended, a);
        let (b, _) = reserved(a)->Ok_0;
        lemma_zeros_are_there(a);
        let (c, guid) = data_field(b, 16)->Ok_0;
        assert(b == guid + c);
        let (_, cookie) = u32_field(c)->Ok_0;
        lemma_number_is_there(c);
        let source = ControlSource {
            twiddled_size,
            libid_twiddled: libid,
            name_extended: name,
            extended_size,
            libid_extended,
            guid,
            cookie,
        };
        assert(input == with_extended(source, rest));
    }
}

/// What the records of a twiddled type library say, behind those of the original type library.
pub open spec fn control_value(
    original: Option<Seq<u8>>,
    source: ControlSource,
    code_page: u16,
) -> ControlView {
    ControlView {
        name: None,
        libid_original: match original {
            Some(libid) => Some(text_of(code_page, libid)),
            None => None,
        },
        libid_twiddled: text_of(code_page, source.libid_twiddled),
        name_extended: name_value(source.name_extended, code_page),
        libid_extended: text_of(code_page, source.libid_extended),
        guid: source.guid,
        cookie: source.cookie,
    }
}

/// The records of a twiddled type library behind those of the original type library, where there
/// are any, in front of other bytes.
pub open spec fn with_original(
    original: Option<Seq<u8>>,
    source: ControlSource,
    rest: Seq<u8>,
) -> Seq<u8> {
    match original {
        Some(libid) => record(0x33, libid) + with_control(source, rest),
        None => with_control(source, rest),
    }
}

/// Whether the texts of a twiddled type library fit in its records.
pub open spec fn control_fits(original: Option<Seq<u8>>, source: ControlSource) -> bool {
    &&& original matches Some(libid) ==> fits(libid)
    &&& fits(source.libid_twiddled)
    &&& name_fits(source.name_extended)
    &&& fits(source.libid_extended)
    &&& source.guid.len() == 16
}

/// Where a twiddled type library is read, the input consists of its records and what is left.
pub proof fn lemma_control_is_there(input: Seq<u8>, code_page: u16)
    ensures
        control_record(input, code_page) matches Ok((rest, value)) ==> exists|
            original: Option<Seq<u8>>,
            source: ControlSource,
        |
            {
                &&& control_fits(original, source)
                &&& input == #[trigger] with_original(original, source, rest)
                &&& value == control_value(original, source, code_page)
                &&& original is Some <==> starts_with(input, 0x33)
            },
{
    reveal(control_record);
    lemma_identifier(input, 0x33);
    if let Ok((rest, value)) = control_record(input, code_page) {
        let (start, libid_original) = control_original(input, code_page)->Ok_0;
        let original: Option<Seq<u8>> = if starts_with(input, 0x33) {
            Some(data_record(input, 0x33)->Ok_0.1)
        } else {
            None
        };
        lemma_record_is_there(input, 0x33);
        let (a, libid) = nested_record(start, 0x2f)->Ok_0;
        lemma_nested_is_there(start, 0x2f);
        let size = choose|size: u32| start == #[trigger] with_nested(0x2f, size, libid, a);
        let (b, _) = reserved(a)->Ok_0;
        lemma_zeros_are_there(a);
        let (c, name_extended) = reference_name(b, code_page)->Ok_0;
        lemma_name_is_there(b, code_page);
        let name = choose|name: Option<(Seq<u8>, Seq<u8>)>|
            {
                &&& name_fits(name)
                &&& b == #[trigger] with_name(name, c)
                &&& name_extended == name_value(name, code_page)
            };
        let twiddled = text_of(code_page, libid);
        lemma_extended_is_there(
            c,
            code_page,
            libid_original,
            twiddled,
            name_extended,
            size,
            libid,
            name,
        );
        let source = choose|source: ControlSource|
            {
                &&& source.twiddled_size == size
                &&& source.libid_twiddled == libid
                &&& source.name_extended == name
                &&& fits(source.libid_extended)
                &&& source.guid.len() == 16
                &&& c == #[trigger] with_extended(source, rest)
                &&& value == ControlView {
                    name: None,
                    libid_original,
                    libid_twiddled: twiddled,
                    name_extended,
                    libid_extended: text_of(code_page, source.libid_extended),
                    guid: source.guid,
                    cookie: source.cookie,
                }
            };
        assert(start == with_control(source, rest));
        assert(input == with_original(original, source, rest));
    }
}

/// Where an Automation type library or an original type library is read, the input consists of its
/// record and what is left.
pub proof fn lemma_library_is_there(input: Seq<u8>, code_page: u16)
    ensures
        registered_record(input, code_page) matches Ok((rest, value)) ==> exists|
            size: u32,
            libid: Seq<u8>,
        |
            {
                &&& fits(libid)
                &&& input == #[trigger] with_nested(0x0d, size, libid, with_zeros(rest))
                &&& value == (RegisteredView { name: None, libid: text_of(code_page, libid) })
            },
        original_record(input, code_page) matches Ok((rest, value)) ==> exists|libid: Seq<u8>|
            {
                &&& fits(libid)
                &&& input == #[trigger] record(0x33, libid) + rest
                &&& value == text_of(code_page, libid)
            },
{
    if let Ok((rest, value)) = registered_record(input, code_page) {
        let (a, libid) = nested_record(input, 0x0d)->Ok_0;
        lemma_nested_is_there(input, 0x0d);
        let size = choose|size: u32| input == #[trigger] with_nested(0x0d, size, libid, a);
        lemma_zeros_are_there(a);
        assert(input == with_nested(0x0d, size, libid, with_zeros(rest)));
    }
    if let Ok((rest, value)) = original_record(input, code_page) {
        lemma_record_is_there(input, 0x33);
        let libid = data_record(input, 0x33)->Ok_0.1;
        assert(input == record(0x33, libid) + rest);
    }
}

/// Where a reference to an external project is read, the input consists of its record and what is
/// left.
pub proof fn lemma_project_is_there(input: Seq<u8>)
    ensures
        project_fields(input) matches Ok((rest, ((absolute, relative), (major, minor)))) ==> fits(
            absolute,
        ) && fits(relative) && exists|size: u32|
            input == #[trigger] with_kind(
                KindSource::Project(size, absolute, relative, major, minor),
                rest,
            ),
{
    if let Ok((rest, ((absolute, relative), (major, minor)))) = project_fields(input) {
        let (a, _) = nested_record(input, 0x0e)->Ok_0;
        lemma_nested_is_there(input, 0x0e);
        let size = choose|size: u32| input == #[trigger] with_nested(0x0e, size, absolute, a);
        let (b, _) = sized_field(a)->Ok_0;
        let (c, _) = u32_field(b)->Ok_0;
        lemma_sized_is_there(a);
        lemma_number_is_there(b);
        lemma_number_is_there(c);
        let kind = KindSource::Project(size, absolute, relative, major, minor);
        assert(with_kind(kind, rest) == with_nested(
            0x0e,
            size,
            absolute,
            four(relative.len() as int) + relative + (four(major as int) + (two(minor as int)
                + rest)),
        ));
    }
}

/// Where a reference is read behind its name, the input consists of its records and what is left.
proof fn lemma_kind_is_there(
    input: Seq<u8>,
    code_page: u16,
    name: Option<(Seq<u8>, Seq<u8>)>,
)
    requires
        name_fits(name),
    ensures
        unnamed_reference(input, code_page, name_value(name, code_page)) matches Ok(
            (rest, Some(value)),
        ) ==> exists|kind: KindSource|
            {
                &&& reference_fits(ReferenceSource { name, kind })
                &&& input == #[trigger] with_kind(kind, rest)
                &&& value == reference_value(ReferenceSource { name, kind }, code_page)
            },
{
    if let Ok((rest, Some(value))) = unnamed_reference(
        input,
        code_page,
        name_value(name, code_page),
    ) {
        let id = u16_field(input)->Ok_0.1;
        if id == 0x2f {
            lemma_identifier(input, 0x2f);
            lemma_control_is_there(input, code_page);
            let control = control_record(input, code_page)->Ok_0.1;
            let (original, source) = choose|original: Option<Seq<u8>>, source: ControlSource|
                {
                    &&& control_fits(original, source)
                    &&& input == #[trigger] with_original(original, source, rest)
                    &&& control == control_value(original, source, code_page)
                    &&& original is Some <==> starts_with(input, 0x33)
                };
            lemma_identifier(input, 0x33);
            assert(input == with_kind(KindSource::Control(source), rest));
        } else if id == 0x33 {
            lemma_record_is_there(input, 0x33);
            let libid = data_record(input, 0x33)->Ok_0.1;
            assert(input == with_kind(KindSource::Original(libid), rest));
        } else if id == 0x0d {
            let (a, libid) = nested_record(input, 0x0d)->Ok_0;
            lemma_nested_is_there(input, 0x0d);
            let size = choose|size: u32| input == #[trigger] with_nested(0x0d, size, libid, a);
            lemma_zeros_are_there(a);
            assert(input == with_kind(KindSource::Registered(size, libid), rest));
        } else {
            lemma_project_is_there(input);
        }
    }
}

/// Where a reference is read, the input consists of its records and what is left, and it is read as
/// what they say.
pub proof fn lemma_reference_is_there(input: Seq<u8>, code_page: u16)
    ensures
        reference(input, code_page) matches Ok((rest, Some(value))) ==> exists|
            source: ReferenceSource,
        |
            {
                &&& reference_fits(source)
                &&& input == #[trigger] with_reference(source, rest)
                &&& value == reference_value(source, code_page)
            },
        reference(input, code_page) matches Ok((rest, None)) ==> starts_with(rest, 0x0f) && exists|
            name: Option<(Seq<u8>, Seq<u8>)>,
        | name_fits(name) && input == #[trigger] with_name(name, rest),
{
    reveal(reference);
    if let Ok((rest, found)) = reference(input, code_page) {
        let (behind, text) = reference_name(input, code_page)->Ok_0;
        lemma_name_is_there(input, code_page);
        let name = choose|name: Option<(Seq<u8>, Seq<u8>)>|
            {
                &&& name_fits(name)
                &&& input == #[trigger] with_name(name, behind)
                &&& text == name_value(name, code_page)
            };
        match found {
            Some(value) => {
                lemma_kind_is_there(behind, code_page, name);
                let kind = choose|kind: KindSource|
                    {
                        &&& reference_fits(ReferenceSource { name, kind })
                        &&& behind == #[trigger] with_kind(kind, rest)
                        &&& value == reference_value(ReferenceSource { name, kind }, code_page)
                    };
                assert(input == with_reference(ReferenceSource { name, kind }, rest));
            },
            None => {
                lemma_identifier(behind, 0x0f);
                assert(input == with_name(name, rest));
            },
        }
    }
}

/// Whether each reference of a list is read where the one before it ends, the first at the start of
/// the first input.
pub open spec fn are_listed(
    inputs: Seq<Seq<u8>>,
    list: Seq<ReferenceView>,
    code_page: u16,
) -> bool {
    &&& inputs.len() == list.len() + 1
    &&& forall|k: int|
        0 <= k < list.len() ==> reference(#[trigger] inputs[k], code_page) == gives(
            inputs[k + 1],
            Some(list[k]),
        )
}

/// References that are read behind others are listed behind the others.
proof fn lemma_further_references_are_listed(
    input: Seq<u8>,
    code_page: u16,
    found: Seq<ReferenceView>,
)
    ensures
        references_from(input, code_page, found) matches Ok((rest, list)) ==> {
            &&& found.len() <= list.len()
            &&& list.take(found.len() as int) == found
            &&& exists|inputs: Seq<Seq<u8>>|
                {
                    &&& #[trigger] are_listed(inputs, list.skip(found.len() as int), code_page)
                    &&& inputs[0] == input
                    &&& reference(inputs[list.len() - found.len()], code_page) == gives(
                        rest,
                        None::<ReferenceView>,
                    )
                }
        },
    decreases input.len(),
{
    lemma_reference_takes_input(input, code_page);
    if let Ok((rest, list)) = references_from(input, code_page, found) {
        let n = found.len() as int;
        match reference(input, code_page)->Ok_0.1 {
            None => {
                let inputs = seq![input];
                assert(found.take(n) == found);
                assert(are_listed(inputs, list.skip(n), code_page));
            },
            Some(value) => {
                let behind = reference(input, code_page)->Ok_0.0;
                lemma_further_references_are_listed(behind, code_page, found.push(value));
                let further = choose|inputs: Seq<Seq<u8>>|
                    {
                        &&& #[trigger] are_listed(inputs, list.skip(n + 1), code_page)
                        &&& inputs[0] == behind
                        &&& reference(inputs[list.len() - (n + 1)], code_page) == gives(
                            rest,
                            None::<ReferenceView>,
                        )
                    };
                let inputs = seq![input] + further;
                assert(list.take(n + 1)[n] == value);
                assert(list.take(n) == list.take(n + 1).take(n));
                assert(found.push(value).take(n) == found);
                assert forall|k: int| 0 <= k < list.skip(n).len() implies reference(
                    #[trigger] inputs[k],
                    code_page,
                ) == gives(inputs[k + 1], Some(list.skip(n)[k])) by {
                    if k > 0 {
                        assert(inputs[k] == further[k - 1]);
                        assert(inputs[k + 1] == further[k]);
                        assert(list.skip(n + 1)[k - 1] == list.skip(n)[k]);
                    }
                }
                assert(are_listed(inputs, list.skip(n), code_page));
                assert(inputs[list.len() - n] == further[list.len() - (n + 1)]);
            },
        }
    }
}

/// Where the references are read, each is what its records say, which start where those of the one
/// before it end, up to the end of the references.
pub proof fn lemma_references_are_listed(input: Seq<u8>, code_page: u16)
    ensures
        references(input, code_page) matches Ok((rest, list)) ==> exists|inputs: Seq<Seq<u8>>|
            {
                &&& #[trigger] are_listed(inputs, list, code_page)
                &&& inputs[0] == input
                &&& reference(inputs[list.len() as int], code_page) == gives(
                    rest,
                    None::<ReferenceView>,
                )
            },
{
    lemma_further_references_are_listed(input, code_page, Seq::empty());
    if let Ok((rest, list)) = references(input, code_page) {
        assert(list.skip(0) == list);
    }
}

/// The references are rejected where one of them is.
pub proof fn lemma_bad_reference_is_rejected(
    inputs: Seq<Seq<u8>>,
    list: Seq<ReferenceView>,
    code_page: u16,
)
    requires
        are_listed(inputs, list, code_page),
        reference(inputs[list.len() as int], code_page) is Err,
    ensures
        references(inputs[0], code_page) == Err::<
            (Seq<u8>, Seq<ReferenceView>),
            FormatError<Seq<u8>>,
        >(reference(inputs[list.len() as int], code_page)->Err_0),
{
    lemma_bad_reference_is_reached(inputs, list, code_page, 0, Seq::empty());
}

proof fn lemma_bad_reference_is_reached(
    inputs: Seq<Seq<u8>>,
    list: Seq<ReferenceView>,
    code_page: u16,
    from: int,
    found: Seq<ReferenceView>,
)
    requires
        are_listed(inputs, list, code_page),
        0 <= from <= list.len(),
        reference(inputs[list.len() as int], code_page) is Err,
    ensures
        references_from(inputs[from], code_page, found) == Err::<
            (Seq<u8>, Seq<ReferenceView>),
            FormatError<Seq<u8>>,
        >(reference(inputs[list.len() as int], code_page)->Err_0),
    decreases list.len() - from,
{
    lemma_reference_takes_input(inputs[from], code_page);
    if from < list.len() {
        lemma_bad_reference_is_reached(inputs, list, code_page, from + 1, found.push(list[from]));
    }
}

/// The records that a reference was read from.
spec fn source_of(
    input: Seq<u8>,
    rest: Seq<u8>,
    value: ReferenceView,
    code_page: u16,
) -> ReferenceSource {
    choose|source: ReferenceSource|
        {
            &&& reference_fits(source)
            &&& input == #[trigger] with_reference(source, rest)
            &&& value == reference_value(source, code_page)
        }
}

/// Where references are listed, the first input consists of their records and what is left.
pub proof fn lemma_listed_references_are_there(
    inputs: Seq<Seq<u8>>,
    list: Seq<ReferenceView>,
    code_page: u16,
)
    requires
        are_listed(inputs, list, code_page),
    ensures
        exists|sources: Seq<ReferenceSource>|
            {
                &&& sources.len() == list.len()
                &&& inputs[0] == #[trigger] with_references(sources, inputs[list.len() as int])
                &&& forall|k: int| 0 <= k < sources.len() ==> reference_fits(#[trigger] sources[k])
                &&& forall|k: int|
                    0 <= k < sources.len() ==> reference_value(#[trigger] sources[k], code_page)
                        == list[k]
            },
    decreases list.len(),
{
    let n = list.len() as int;
    if n == 0 {
        let sources = Seq::<ReferenceSource>::empty();
        assert(inputs[0] == with_references(sources, inputs[n]));
    } else {
        let (behind, others) = (inputs.skip(1), list.skip(1));
        assert forall|k: int| 0 <= k < others.len() implies reference(
            #[trigger] behind[k],
            code_page,
        ) == gives(behind[k + 1], Some(others[k])) by {
            assert(behind[k] == inputs[k + 1]);
        }
        lemma_listed_references_are_there(behind, others, code_page);
        let further = choose|sources: Seq<ReferenceSource>|
            {
                &&& sources.len() == others.len()
                &&& behind[0] == #[trigger] with_references(sources, behind[others.len() as int])
                &&& forall|k: int| 0 <= k < sources.len() ==> reference_fits(#[trigger] sources[k])
                &&& forall|k: int|
                    0 <= k < sources.len() ==> reference_value(#[trigger] sources[k], code_page)
                        == others[k]
            };
        lemma_reference_is_there(inputs[0], code_page);
        let first = source_of(inputs[0], inputs[1], list[0], code_page);
        let sources = seq![first] + further;
        assert(sources.skip(1) == further);
        assert(inputs[0] == with_references(sources, inputs[n]));
        assert forall|k: int| 0 <= k < sources.len() implies reference_fits(#[trigger] sources[k])
            && reference_value(sources[k], code_page) == list[k] by {
            if k > 0 {
                assert(sources[k] == further[k - 1]);
            }
        }
    }
}

} // verus!
