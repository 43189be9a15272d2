//! The references of a project.

use vstd::prelude::*;
use vstd::slice::slice_to_vec;

use crate::bytes::{
    data_field, data_record, le_u16, le_u32, length_data, parse_data_record, sized_field, tag16,
    tag32, tag_u16, tag_u32, take, u16_field, u32_field,
};
use crate::code_page::{cp_to_string, readable, text_of};
use crate::format::{agrees, followed_by, opt, optional, FormatError, Model, Parsed};

verus! {

broadcast use {
    crate::bytes::lemma_data_record_size,
    crate::bytes::lemma_u16_record_size,
    crate::bytes::lemma_u32_record_size,
};

/// Specifies a reference to a twiddled type library and its extended type library.
#[derive(Debug)]
pub struct ReferenceControl {
    /// (Optional) Name entry
    pub name: Option<String>,
    /// Specifies the type library that the twiddled type library was generated from.
    pub libid_original: Option<String>,
    /// Specifies the twiddled type library.
    pub libid_twiddled: String,
    /// Specifies the name of the extended type library.
    pub name_extended: Option<String>,
    /// Specifies the extended type library.
    pub libid_extended: String,
    /// Specifies the type library that the extended type library was generated from.
    pub guid: Vec<u8>,
    /// MUST be Unique for each `ReferenceControl` in the VBA project with the same
    /// libid_original.
    pub cookie: u32,
}

/// Specifies the identifier of the Automation type library the containing
/// [`ReferenceControl`]'s twiddled type library was generated from.
#[derive(Debug)]
pub struct ReferenceOriginal {
    /// (Optional) Name entry
    pub name: Option<String>,
    /// Specifies the type library.
    pub libid_original: String,
}

/// Specifies a reference to an Automation type library.
#[derive(Debug)]
pub struct ReferenceRegistered {
    /// (Optional) Name entry
    pub name: Option<String>,
    /// Specifies the type library.
    pub libid: String,
}

/// Specifies a reference to an external VBA project.
#[derive(Debug)]
pub struct ReferenceProject {
    /// (Optional) Name entry
    pub name: Option<String>,
    /// Specifies the absolute path to the project.
    pub libid_absolute: String,
    /// Specifies the relative path to the project.
    pub libid_relative: String,
    /// Specifies the major version of the project.
    pub major_version: u32,
    /// Specifies the minor version of the project.
    pub minor_version: u16,
}

/// Specifies a reference to an Automation type library or VBA project.
#[derive(Debug)]
pub enum Reference {
    /// The `Reference` is a [`ReferenceControl`].
    Control(ReferenceControl),
    /// The `Reference` is a [`ReferenceOriginal`].
    Original(ReferenceOriginal),
    /// The `Reference` is a [`ReferenceRegistered`].
    Registered(ReferenceRegistered),
    /// The `Reference` is a [`ReferenceProject`].
    Project(ReferenceProject),
}

/// The value of a [`ReferenceControl`].
#[verifier::ext_equal]
pub struct ControlView {
    pub name: Option<Seq<char>>,
    pub libid_original: Option<Seq<char>>,
    pub libid_twiddled: Seq<char>,
    pub name_extended: Option<Seq<char>>,
    pub libid_extended: Seq<char>,
    pub guid: Seq<u8>,
    pub cookie: u32,
}

/// The value of a [`ReferenceRegistered`].
#[verifier::ext_equal]
pub struct RegisteredView {
    pub name: Option<Seq<char>>,
    pub libid: Seq<char>,
}

/// The value of a [`ReferenceProject`].
#[verifier::ext_equal]
pub struct ExternalProjectView {
    pub name: Option<Seq<char>>,
    pub libid_absolute: Seq<char>,
    pub libid_relative: Seq<char>,
    pub major_version: u32,
    pub minor_version: u16,
}

/// The value of a [`Reference`].
#[verifier::ext_equal]
pub enum ReferenceView {
    Control(ControlView),
    Original { name: Option<Seq<char>>, libid_original: Seq<char> },
    Registered(RegisteredView),
    Project(ExternalProjectView),
}

impl Model for ReferenceControl {
    type M = ControlView;

    open spec fn model(&self) -> ControlView {
        ControlView {
            name: self.name.model(),
            libid_original: self.libid_original.model(),
            libid_twiddled: self.libid_twiddled@,
            name_extended: self.name_extended.model(),
            libid_extended: self.libid_extended@,
            guid: self.guid@,
            cookie: self.cookie,
        }
    }
}

impl Model for ReferenceRegistered {
    type M = RegisteredView;

    open spec fn model(&self) -> RegisteredView {
        RegisteredView { name: self.name.model(), libid: self.libid@ }
    }
}

impl Model for ReferenceProject {
    type M = ExternalProjectView;

    open spec fn model(&self) -> ExternalProjectView {
        ExternalProjectView {
            name: self.name.model(),
            libid_absolute: self.libid_absolute@,
            libid_relative: self.libid_relative@,
            major_version: self.major_version,
            minor_version: self.minor_version,
        }
    }
}

impl Model for Reference {
    type M = ReferenceView;

    open spec fn model(&self) -> ReferenceView {
        match self {
            Reference::Control(value) => ReferenceView::Control(value.model()),
            Reference::Original(value) => ReferenceView::Original {
                name: value.name.model(),
                libid_original: value.libid_original@,
            },
            Reference::Registered(value) => ReferenceView::Registered(value.model()),
            Reference::Project(value) => ReferenceView::Project(value.model()),
        }
    }
}

impl Model for Vec<Reference> {
    type M = Seq<ReferenceView>;

    open spec fn model(&self) -> Seq<ReferenceView> {
        self@.map_values(|reference: Reference| reference.model())
    }
}

/// A record of variable size that holds data with a size of its own: its identifier, its 32-bit
/// size, the 32-bit size of the data and the data.
pub open spec fn nested_record(input: Seq<u8>, id: u16) -> Parsed<Seq<u8>> {
    followed_by(
        tag16(input, id),
        |rest: Seq<u8>, _id: ()|
            followed_by(u32_field(rest), |rest: Seq<u8>, _size: u32| sized_field(rest)),
    )
}

/// Six bytes that are reserved and zero.
pub open spec fn reserved(input: Seq<u8>) -> Parsed<()> {
    followed_by(tag32(input, 0), |rest: Seq<u8>, _zero: ()| tag16(rest, 0))
}

/// The record of a reference's name: the name in the project's code page and in UTF-16.
pub open spec fn name_pair(input: Seq<u8>) -> Parsed<(Seq<u8>, Seq<u8>)> {
    followed_by(
        data_record(input, 0x16),
        |rest: Seq<u8>, name: Seq<u8>|
            followed_by(
                data_record(rest, 0x3e),
                |rest: Seq<u8>, unicode: Seq<u8>| Ok((rest, (name, unicode))),
            ),
    )
}

/// The record of a reference's name, which may be missing.
pub open spec fn reference_name(input: Seq<u8>, code_page: u16) -> Parsed<Option<Seq<char>>> {
    followed_by(
        optional(input, name_pair(input)),
        |rest: Seq<u8>, pair: Option<(Seq<u8>, Seq<u8>)>|
            match pair {
                Some((name, _)) => Ok((rest, Some(text_of(code_page, name)))),
                None => Ok((rest, None)),
            },
    )
}

/// The record of an original type library.
pub open spec fn original_record(input: Seq<u8>, code_page: u16) -> Parsed<Seq<char>> {
    followed_by(
        data_record(input, 0x33),
        |rest: Seq<u8>, data: Seq<u8>| Ok((rest, text_of(code_page, data))),
    )
}

/// The record of an original type library in front of the record of a twiddled type library,
/// where it may be missing.
pub open spec fn control_original(input: Seq<u8>, code_page: u16) -> Parsed<Option<Seq<char>>> {
    followed_by(
        u16_field(input),
        |_rest: Seq<u8>, id: u16|
            if id == 0x33 {
                followed_by(
                    original_record(input, code_page),
                    |rest: Seq<u8>, original: Seq<char>| Ok((rest, Some(original))),
                )
            } else {
                Ok((input, None))
            },
    )
}

/// The records of a twiddled type library and its extended type library.
#[verifier::opaque]
pub open spec fn control_record(input: Seq<u8>, code_page: u16) -> Parsed<ControlView> {
    followed_by(
        control_original(input, code_page),
        |rest: Seq<u8>, original: Option<Seq<char>>|
            followed_by(
                nested_record(rest, 0x2f),
                |rest: Seq<u8>, twiddled: Seq<u8>|
                    followed_by(
                        reserved(rest),
                        |rest: Seq<u8>, _zero: ()|
                            followed_by(
                                reference_name(rest, code_page),
                                |rest: Seq<u8>, name_extended: Option<Seq<char>>|
                                    extended_record(
                                        rest,
                                        code_page,
                                        original,
                                        text_of(code_page, twiddled),
                                        name_extended,
                                    ),
                            ),
                    ),
            ),
    )
}

/// The record of an extended type library, behind what was read of its twiddled type library.
#[verifier::opaque]
pub open spec fn extended_record(
    input: Seq<u8>,
    code_page: u16,
    libid_original: Option<Seq<char>>,
    libid_twiddled: Seq<char>,
    name_extended: Option<Seq<char>>,
) -> Parsed<ControlView> {
    followed_by(
        nested_record(input, 0x30),
        |rest: Seq<u8>, extended: Seq<u8>|
            followed_by(
                reserved(rest),
                |rest: Seq<u8>, _zero: ()|
                    followed_by(
                        data_field(rest, 16),
                        |rest: Seq<u8>, guid: Seq<u8>|
                            followed_by(
                                u32_field(rest),
                                |rest: Seq<u8>, cookie: u32|
                                    Ok(
                                        (
                                            rest,
                                            ControlView {
                                                name: None,
                                                libid_original,
                                                libid_twiddled,
                                                name_extended,
                                                libid_extended: text_of(code_page, extended),
                                                guid,
                                                cookie,
                                            },
                                        ),
                                    ),
                            ),
                    ),
            ),
    )
}

/// The record of an Automation type library.
pub open spec fn registered_record(input: Seq<u8>, code_page: u16) -> Parsed<RegisteredView> {
    followed_by(
        nested_record(input, 0x0d),
        |rest: Seq<u8>, libid: Seq<u8>|
            followed_by(
                reserved(rest),
                |rest: Seq<u8>, _zero: ()|
                    Ok((rest, RegisteredView { name: None, libid: text_of(code_page, libid) })),
            ),
    )
}

/// The fields of the record of an external project, as they stand in it.
pub open spec fn project_fields(input: Seq<u8>) -> Parsed<((Seq<u8>, Seq<u8>), (u32, u16))> {
    followed_by(
        nested_record(input, 0x0e),
        |rest: Seq<u8>, absolute: Seq<u8>|
            followed_by(
                sized_field(rest),
                |rest: Seq<u8>, relative: Seq<u8>|
                    followed_by(
                        u32_field(rest),
                        |rest: Seq<u8>, major: u32|
                            followed_by(
                                u16_field(rest),
                                |rest: Seq<u8>, minor: u16|
                                    Ok((rest, ((absolute, relative), (major, minor)))),
                            ),
                    ),
            ),
    )
}

/// The record of an external project.
pub open spec fn project_record(input: Seq<u8>, code_page: u16) -> Parsed<ExternalProjectView> {
    followed_by(
        project_fields(input),
        |rest: Seq<u8>, fields: ((Seq<u8>, Seq<u8>), (u32, u16))|
            Ok(
                (
                    rest,
                    ExternalProjectView {
                        name: None,
                        libid_absolute: text_of(code_page, fields.0.0),
                        libid_relative: text_of(code_page, fields.0.1),
                        major_version: fields.1.0,
                        minor_version: fields.1.1,
                    },
                ),
            ),
    )
}

/// A reference without its name, or the end of the references, which is where the records of
/// the modules start.
pub open spec fn unnamed_reference(
    input: Seq<u8>,
    code_page: u16,
    name: Option<Seq<char>>,
) -> Parsed<Option<ReferenceView>> {
    followed_by(
        u16_field(input),
        |_rest: Seq<u8>, id: u16|
            if id == 0x2f {
                followed_by(
                    control_record(input, code_page),
                    |rest: Seq<u8>, value: ControlView|
                        Ok((rest, Some(ReferenceView::Control(ControlView { name, ..value })))),
                )
            } else if id == 0x33 {
                followed_by(
                    original_record(input, code_page),
                    |rest: Seq<u8>, libid_original: Seq<char>|
                        Ok((rest, Some(ReferenceView::Original { name, libid_original }))),
                )
            } else if id == 0x0d {
                followed_by(
                    registered_record(input, code_page),
                    |rest: Seq<u8>, value: RegisteredView|
                        Ok(
                            (
                                rest,
                                Some(ReferenceView::Registered(RegisteredView { name, ..value })),
                            ),
                        ),
                )
            } else if id == 0x0e {
                followed_by(
                    project_record(input, code_page),
                    |rest: Seq<u8>, value: ExternalProjectView|
                        Ok(
                            (
                                rest,
                                Some(ReferenceView::Project(ExternalProjectView { name, ..value })),
                            ),
                        ),
                )
            } else if id == 0x0f {
                Ok((input, None))
            } else {
                Err(FormatError::UnexpectedValue)
            },
    )
}

/// A reference, or the end of the references.
#[verifier::opaque]
pub open spec fn reference(input: Seq<u8>, code_page: u16) -> Parsed<Option<ReferenceView>> {
    followed_by(
        reference_name(input, code_page),
        |rest: Seq<u8>, name: Option<Seq<char>>| unnamed_reference(rest, code_page, name),
    )
}

/// The references up to their end, behind those that were found before.
pub open spec fn references_from(
    input: Seq<u8>,
    code_page: u16,
    found: Seq<ReferenceView>,
) -> Parsed<Seq<ReferenceView>>
    decreases input.len(),
{
    proof {
        lemma_reference_takes_input(input, code_page);
    }
    match reference(input, code_page) {
        Ok((rest, Some(value))) => references_from(rest, code_page, found.push(value)),
        Ok((rest, None)) => Ok((rest, found)),
        Err(error) => Err(error),
    }
}

/// The references up to their end.
pub open spec fn references(input: Seq<u8>, code_page: u16) -> Parsed<Seq<ReferenceView>> {
    references_from(input, code_page, Seq::empty())
}

/// Twiddled and extended type libraries take up some of the input.
proof fn lemma_control_takes_input(input: Seq<u8>, code_page: u16)
    ensures
        control_record(input, code_page) matches Ok((rest, _)) ==> rest.len() < input.len(),
{
    reveal(control_record);
    if let Ok((rest, original)) = control_original(input, code_page) {
        assert(rest.len() <= input.len());
        if let Ok((rest, twiddled)) = nested_record(rest, 0x2f) {
            assert(rest.len() < input.len());
            if let Ok((rest, _)) = reserved(rest) {
                assert(rest.len() < input.len());
                if let Ok((rest, name_extended)) = reference_name(rest, code_page) {
                    assert(rest.len() < input.len());
                    lemma_extended_takes_input(
                        rest,
                        code_page,
                        original,
                        text_of(code_page, twiddled),
                        name_extended,
                    );
                }
            }
        }
    }
}

proof fn lemma_extended_takes_input(
    input: Seq<u8>,
    code_page: u16,
    libid_original: Option<Seq<char>>,
    libid_twiddled: Seq<char>,
    name_extended: Option<Seq<char>>,
)
    ensures
        extended_record(input, code_page, libid_original, libid_twiddled, name_extended) matches Ok(
            (rest, _),
        ) ==> rest.len() < input.len(),
{
    reveal(extended_record);
}

proof fn lemma_project_takes_input(input: Seq<u8>)
    ensures
        project_fields(input) matches Ok((rest, _)) ==> rest.len() < input.len(),
{
}

/// A reference takes up some of the input.
pub proof fn lemma_reference_takes_input(input: Seq<u8>, code_page: u16)
    ensures
        reference(input, code_page) matches Ok((rest, Some(_))) ==> rest.len() < input.len(),
        reference(input, code_page) matches Ok((rest, None)) ==> rest.len() <= input.len(),
{
    reveal(reference);
    if let Ok((rest, name)) = reference_name(input, code_page) {
        assert(rest.len() <= input.len());
        lemma_unnamed_takes_input(rest, code_page, name);
    }
}

proof fn lemma_unnamed_takes_input(input: Seq<u8>, code_page: u16, name: Option<Seq<char>>)
    ensures
        unnamed_reference(input, code_page, name) matches Ok((rest, Some(_))) ==> rest.len()
            < input.len(),
        unnamed_reference(input, code_page, name) matches Ok((rest, None)) ==> rest.len()
            <= input.len(),
{
    lemma_control_takes_input(input, code_page);
    lemma_project_takes_input(input);
}

/// The references end within the input.
pub proof fn lemma_references_take_input(
    input: Seq<u8>,
    code_page: u16,
    found: Seq<ReferenceView>,
)
    ensures
        references_from(input, code_page, found) matches Ok((rest, _)) ==> rest.len()
            <= input.len(),
    decreases input.len(),
{
    lemma_reference_takes_input(input, code_page);
    if let Ok((rest, Some(value))) = reference(input, code_page) {
        lemma_references_take_input(rest, code_page, found.push(value));
    }
}

/// Whether text is read from the records of a twiddled type library.
pub open spec fn control_has_text(input: Seq<u8>) -> bool {
    u16_field(input) matches Ok((_, id)) && if id == 0x33 {
        data_record(input, 0x33) is Ok
    } else {
        nested_record(input, 0x2f) is Ok
    }
}

/// Whether text is read from a reference, beside its name.
pub open spec fn unnamed_has_text(input: Seq<u8>) -> bool {
    u16_field(input) matches Ok((_, id)) && if id == 0x2f {
        control_has_text(input)
    } else if id == 0x33 {
        data_record(input, 0x33) is Ok
    } else if id == 0x0d {
        nested_record(input, 0x0d) is Ok
    } else {
        id == 0x0e && project_fields(input) is Ok
    }
}

/// Whether text is read from a reference.
#[verifier::opaque]
pub open spec fn reference_has_text(input: Seq<u8>) -> bool {
    match name_pair(input) {
        Ok(_) => true,
        Err(FormatError::Incomplete(_)) => false,
        Err(_) => unnamed_has_text(input),
    }
}

/// Where a reference is found, text was read from it.
proof fn lemma_reference_has_text(input: Seq<u8>, code_page: u16)
    ensures
        reference(input, code_page) matches Ok((_, Some(_))) ==> reference_has_text(input),
{
    reveal(control_record);
    reveal(reference);
    reveal(reference_has_text);
}

/// Reads a record of variable size that holds data with a size of its own.
fn parse_nested_record(i: &[u8], id: u16) -> (result: Result<(&[u8], &[u8]), FormatError<&[u8]>>)
    ensures
        agrees(result, nested_record(i@, id)),
{
    let (i, _) = tag_u16(i, id)?;
    let (i, _) = le_u32(i)?;
    length_data(i)
}

/// Reads six bytes that are reserved and zero.
fn parse_reserved(i: &[u8]) -> (result: Result<(&[u8], ()), FormatError<&[u8]>>)
    ensures
        agrees(result, reserved(i@)),
{
    let (i, _) = tag_u32(i, 0)?;
    tag_u16(i, 0)
}

/// Reads the bytes of a name in the project's code page and in UTF-16.
fn parse_name_pair(i: &[u8]) -> (result: Result<(&[u8], (&[u8], &[u8])), FormatError<&[u8]>>)
    ensures
        agrees(result, name_pair(i@)),
{
    let (i, name) = parse_data_record(i, 0x16)?;
    let (i, unicode) = parse_data_record(i, 0x3e)?;
    Ok((i, (name, unicode)))
}

/// Reads a reference's name, where there is one.
pub fn parse_reference_name(i: &[u8], code_page: u16) -> (result: Result<
    (&[u8], Option<String>),
    FormatError<&[u8]>,
>)
    requires
        name_pair(i@) is Ok ==> readable(code_page, i@),
    ensures
        agrees(result, reference_name(i@, code_page)),
{
    let (i, pair) = opt(i, parse_name_pair(i))?;
    match pair {
        Some((name, _)) => Ok((i, Some(cp_to_string(name, code_page)))),
        None => Ok((i, None)),
    }
}

/// Reads an original type library.
pub fn parse_reference_original(i: &[u8], code_page: u16) -> (result: Result<
    (&[u8], String),
    FormatError<&[u8]>,
>)
    requires
        data_record(i@, 0x33) is Ok ==> readable(code_page, i@),
    ensures
        agrees(result, original_record(i@, code_page)),
{
    let (i, libid_original) = parse_data_record(i, 0x33)?;
    Ok((i, cp_to_string(libid_original, code_page)))
}

/// Reads an original type library in front of a twiddled type library, where there is one.
fn parse_control_original(i: &[u8], code_page: u16) -> (result: Result<
    (&[u8], Option<String>),
    FormatError<&[u8]>,
>)
    requires
        control_has_text(i@) && data_record(i@, 0x33) is Ok ==> readable(code_page, i@),
    ensures
        agrees(result, control_original(i@, code_page)),
{
    let (_, id) = le_u16(i)?;
    if id == 0x33 {
        let (i, libid_original) = parse_reference_original(i, code_page)?;
        Ok((i, Some(libid_original)))
    } else {
        Ok((i, None))
    }
}

/// Reads a twiddled type library and its extended type library.
pub fn parse_reference_control(i: &[u8], code_page: u16) -> (result: Result<
    (&[u8], ReferenceControl),
    FormatError<&[u8]>,
>)
    requires
        control_has_text(i@) ==> readable(code_page, i@),
    ensures
        agrees(result, control_record(i@, code_page)),
{
    proof {
        reveal(control_record);
    }
    let (i, libid_original) = parse_control_original(i, code_page)?;
    let (i, libid_twiddled) = parse_nested_record(i, 0x2f)?;
    let libid_twiddled = cp_to_string(libid_twiddled, code_page);
    let (i, _) = parse_reserved(i)?;
    let (i, name_extended) = parse_reference_name(i, code_page)?;
    parse_extended(i, code_page, libid_original, libid_twiddled, name_extended)
}

/// Reads an extended type library, behind what was read of its twiddled type library.
fn parse_extended(
    i: &[u8],
    code_page: u16,
    libid_original: Option<String>,
    libid_twiddled: String,
    name_extended: Option<String>,
) -> (result: Result<(&[u8], ReferenceControl), FormatError<&[u8]>>)
    requires
        readable(code_page, i@),
    ensures
        agrees(
            result,
            extended_record(
                i@,
                code_page,
                libid_original.model(),
                libid_twiddled@,
                name_extended.model(),
            ),
        ),
{
    proof {
        reveal(extended_record);
    }
    let (i, libid_extended) = parse_nested_record(i, 0x30)?;
    let libid_extended = cp_to_string(libid_extended, code_page);
    let (i, _) = parse_reserved(i)?;
    let (i, guid) = take(i, 16)?;
    let (i, cookie) = le_u32(i)?;
    let guid = slice_to_vec(guid);
    Ok(
        (
            i,
            ReferenceControl {
                name: None,
                libid_original,
                libid_twiddled,
                name_extended,
                libid_extended,
                guid,
                cookie,
            },
        ),
    )
}

/// Reads an Automation type library.
pub fn parse_reference_registered(i: &[u8], code_page: u16) -> (result: Result<
    (&[u8], ReferenceRegistered),
    FormatError<&[u8]>,
>)
    requires
        nested_record(i@, 0x0d) is Ok ==> readable(code_page, i@),
    ensures
        agrees(result, registered_record(i@, code_page)),
{
    let (i, libid) = parse_nested_record(i, 0x0d)?;
    let libid = cp_to_string(libid, code_page);
    let (i, _) = parse_reserved(i)?;
    Ok((i, ReferenceRegistered { name: None, libid }))
}

/// Reads an external project.
pub fn parse_reference_project(i: &[u8], code_page: u16) -> (result: Result<
    (&[u8], ReferenceProject),
    FormatError<&[u8]>,
>)
    requires
        project_fields(i@) is Ok ==> readable(code_page, i@),
    ensures
        agrees(result, project_record(i@, code_page)),
{
    let (i, libid_absolute) = parse_nested_record(i, 0x0e)?;
    let (i, libid_relative) = length_data(i)?;
    let (i, major_version) = le_u32(i)?;
    let (i, minor_version) = le_u16(i)?;
    let libid_absolute = cp_to_string(libid_absolute, code_page);
    let libid_relative = cp_to_string(libid_relative, code_page);
    Ok(
        (
            i,
            ReferenceProject {
                name: None,
                libid_absolute,
                libid_relative,
                major_version,
                minor_version,
            },
        ),
    )
}

/// Reads a reference.
///
/// The value is `None` where there is no further reference but the start of the records of the
/// modules, of which nothing is read.
pub fn parse_reference(i: &[u8], code_page: u16) -> (result: Result<
    (&[u8], Option<Reference>),
    FormatError<&[u8]>,
>)
    requires
        reference_has_text(i@) ==> readable(code_page, i@),
    ensures
        agrees(result, reference(i@, code_page)),
{
    proof {
        reveal(reference);
        reveal(reference_has_text);
    }
    let (i, name) = parse_reference_name(i, code_page)?;
    let (_, id) = le_u16(i)?;
    match id {
        0x2f => {
            let (i, mut value) = parse_reference_control(i, code_page)?;
            value.name = name;
            Ok((i, Some(Reference::Control(value))))
        },
        0x33 => {
            let (i, libid_original) = parse_reference_original(i, code_page)?;
            Ok((i, Some(Reference::Original(ReferenceOriginal { name, libid_original }))))
        },
        0x0d => {
            let (i, mut value) = parse_reference_registered(i, code_page)?;
            value.name = name;
            Ok((i, Some(Reference::Registered(value))))
        },
        0x0e => {
            let (i, mut value) = parse_reference_project(i, code_page)?;
            value.name = name;
            Ok((i, Some(Reference::Project(value))))
        },
        0x0f => Ok((i, None)),
        _ => Err(FormatError::UnexpectedValue),
    }
}

/// Reads all references.
pub fn parse_references(i: &[u8], code_page: u16) -> (result: Result<
    (&[u8], Vec<Reference>),
    FormatError<&[u8]>,
>)
    requires
        reference_has_text(i@) ==> readable(code_page, i@),
    ensures
        agrees(result, references(i@, code_page)),
{
    let mut result: Vec<Reference> = Vec::new();
    let mut rest = i;
    assert(result.model() == Seq::<ReferenceView>::empty());
    loop
        invariant_except_break
            reference_has_text(rest@) ==> readable(code_page, rest@),
            references_from(rest@, code_page, result.model()) == references(i@, code_page),
        ensures
            references(i@, code_page) == Ok::<(Seq<u8>, Seq<ReferenceView>), FormatError<Seq<u8>>>(
                (rest@, result.model()),
            ),
        decreases rest@.len(),
    {
        proof {
            lemma_reference_takes_input(rest@, code_page);
            lemma_reference_has_text(rest@, code_page);
        }
        let (remainder, value) = parse_reference(rest, code_page)?;
        rest = remainder;
        match value {
            Some(reference) => {
                let ghost found = result.model();
                result.push(reference);
                assert(result.model() == found.push(reference.model()));
            },
            None => {
                break;
            },
        }
    }
    Ok((rest, result))
}

} // verus!
