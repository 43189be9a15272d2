//! The version-independent information of a project.

use vstd::prelude::*;
use vstd::slice::slice_to_vec;

use crate::bytes::{
    data_record, le_u16, parse_data_record, parse_u16_record, parse_u32_record, u16_field,
    u16_record, u32_record,
};
use crate::format::{agrees, followed_by, opt, optional, FormatError, Model, Parsed};

verus! {

/// Specifies the platform for which the VBA project is created.
#[derive(Debug, Clone, Copy, PartialEq, Eq, Structural)]
pub enum SysKind {
    /// For 16-bit Windows Platforms.
    Win16,
    /// For 32-bit Windows Platforms.
    Win32,
    /// For Macintosh Platforms.
    MacOs,
    /// For 64-bit Windows Platforms.
    Win64,
}

impl Model for SysKind {
    type M = SysKind;

    open spec fn model(&self) -> SysKind {
        *self
    }
}

/// Specifies version-independent information for the VBA project.
#[derive(Debug)]
pub struct Information {
    /// Specifies the platform for which the VBA project is created.
    pub sys_kind: SysKind,
    /// Specifies the version of the application that the project is compatible with.
    pub compat: Option<u32>,
    /// Specifies the locale of the project.
    pub lcid: u32,
    /// Specifies the locale that is used for calls through automation.
    pub lcid_invoke: u32,
    /// Specifies the code page for the VBA project.
    pub code_page: u16,
    /// Specifies the name of the project.
    pub name: String,
    /// Specifies the description of the project.
    pub doc_string: String,
    /// Specifies the path to the Help file of the project.
    pub help_file_1: String,
    /// Specifies the Help topic identifier of the project.
    pub help_context: u32,
    /// Specifies the flags of the project's type library.
    pub lib_flags: u32,
    /// Specifies the major version of the project.
    pub version_major: u32,
    /// Specifies the minor version of the project.
    pub version_minor: u16,
    /// Specifies the compilation constants of the project.
    pub constants: Option<String>,
}

/// The value of an [`Information`].
#[verifier::ext_equal]
pub struct InformationView {
    pub sys_kind: SysKind,
    pub compat: Option<u32>,
    pub lcid: u32,
    pub lcid_invoke: u32,
    pub code_page: u16,
    pub name: Seq<char>,
    pub doc_string: Seq<char>,
    pub help_file_1: Seq<char>,
    pub help_context: u32,
    pub lib_flags: u32,
    pub version_major: u32,
    pub version_minor: u16,
    pub constants: Option<Seq<char>>,
}

impl View for Information {
    type V = InformationView;

    open spec fn view(&self) -> InformationView {
        InformationView {
            sys_kind: self.sys_kind,
            compat: self.compat,
            lcid: self.lcid,
            lcid_invoke: self.lcid_invoke,
            code_page: self.code_page,
            name: self.name@,
            doc_string: self.doc_string@,
            help_file_1: self.help_file_1@,
            help_context: self.help_context,
            lib_flags: self.lib_flags,
            version_major: self.version_major,
            version_minor: self.version_minor,
            constants: self.constants.model(),
        }
    }
}

/// The platform that a number stands for.
pub open spec fn sys_kind_of(value: u32) -> Option<SysKind> {
    if value == 0 {
        Some(SysKind::Win16)
    } else if value == 1 {
        Some(SysKind::Win32)
    } else if value == 2 {
        Some(SysKind::MacOs)
    } else if value == 3 {
        Some(SysKind::Win64)
    } else {
        None
    }
}

/// The record of the platform.
pub open spec fn sys_kind_record(input: Seq<u8>) -> Parsed<SysKind> {
    followed_by(
        u32_record(input, 0x01),
        |rest: Seq<u8>, value: u32|
            match sys_kind_of(value) {
                Some(sys_kind) => Ok((rest, sys_kind)),
                None => Err(FormatError::UnexpectedValue),
            },
    )
}

/// The record of the application version, which may be missing.
pub open spec fn compat_record(input: Seq<u8>) -> Parsed<Option<u32>> {
    optional(input, u32_record(input, 0x4a))
}

/// The record of the description in UTF-16, which takes two bytes for a code unit.
pub open spec fn doc_string_unicode_record(input: Seq<u8>) -> Parsed<Seq<u8>> {
    followed_by(
        data_record(input, 0x40),
        |rest: Seq<u8>, data: Seq<u8>|
            if data.len() % 2 != 0 {
                Err(FormatError::UnexpectedValue)
            } else {
                Ok((rest, data))
            },
    )
}

/// The record of the project's version.
pub open spec fn version_record(input: Seq<u8>) -> Parsed<(u32, u16)> {
    followed_by(
        u32_record(input, 0x09),
        |rest: Seq<u8>, major: u32|
            followed_by(u16_field(rest), |rest: Seq<u8>, minor: u16| Ok((rest, (major, minor)))),
    )
}

/// The record of the compilation constants, which may be missing.
pub open spec fn constants_record(input: Seq<u8>) -> Parsed<Option<Seq<u8>>> {
    optional(input, data_record(input, 0x0c))
}

/// The record of the compilation constants in UTF-16, which may be missing.
pub open spec fn constants_unicode_record(input: Seq<u8>) -> Parsed<Option<Seq<u8>>> {
    optional(input, data_record(input, 0x3c))
}

/// Reads a record of variable size into a vector.
fn parse_bytes(i: &[u8], id: u16) -> (result: Result<(&[u8], Vec<u8>), FormatError<&[u8]>>)
    ensures
        agrees(result, data_record(i@, id)),
{
    let (i, data) = parse_data_record(i, id)?;
    Ok((i, slice_to_vec(data)))
}

/// Reads a record of variable size that may be missing.
fn parse_optional_bytes(i: &[u8], id: u16) -> (result: Result<
    (&[u8], Option<Vec<u8>>),
    FormatError<&[u8]>,
>)
    ensures
        agrees(result, optional(i@, data_record(i@, id))),
{
    opt(i, parse_bytes(i, id))
}

/// Reads the platform.
pub fn parse_syskind(i: &[u8]) -> (result: Result<(&[u8], SysKind), FormatError<&[u8]>>)
    ensures
        agrees(result, sys_kind_record(i@)),
{
    let (i, sys_kind) = parse_u32_record(i, 0x01)?;
    match sys_kind {
        0 => Ok((i, SysKind::Win16)),
        1 => Ok((i, SysKind::Win32)),
        2 => Ok((i, SysKind::MacOs)),
        3 => Ok((i, SysKind::Win64)),
        _ => Err(FormatError::UnexpectedValue),
    }
}

/// Reads the application version, where there is one.
pub fn parse_compat(i: &[u8]) -> (result: Result<(&[u8], Option<u32>), FormatError<&[u8]>>)
    ensures
        agrees(result, compat_record(i@)),
{
    opt(i, parse_u32_record(i, 0x4a))
}

/// Reads the locale.
pub fn parse_lcid(i: &[u8]) -> (result: Result<(&[u8], u32), FormatError<&[u8]>>)
    ensures
        agrees(result, u32_record(i@, 0x02)),
{
    parse_u32_record(i, 0x02)
}

/// Reads the locale for calls through automation.
pub fn parse_lcid_invoke(i: &[u8]) -> (result: Result<(&[u8], u32), FormatError<&[u8]>>)
    ensures
        agrees(result, u32_record(i@, 0x14)),
{
    parse_u32_record(i, 0x14)
}

/// Reads the code page.
pub fn parse_code_page(i: &[u8]) -> (result: Result<(&[u8], u16), FormatError<&[u8]>>)
    ensures
        agrees(result, u16_record(i@, 0x03)),
{
    parse_u16_record(i, 0x03)
}

/// Reads the bytes of the name.
pub fn parse_name(i: &[u8]) -> (result: Result<(&[u8], Vec<u8>), FormatError<&[u8]>>)
    ensures
        agrees(result, data_record(i@, 0x04)),
{
    parse_bytes(i, 0x04)
}

/// Reads the bytes of the description.
pub fn parse_doc_string(i: &[u8]) -> (result: Result<(&[u8], Vec<u8>), FormatError<&[u8]>>)
    ensures
        agrees(result, data_record(i@, 0x05)),
{
    parse_bytes(i, 0x05)
}

/// Reads the bytes of the description in UTF-16.
pub fn parse_doc_string_unicode(i: &[u8]) -> (result: Result<
    (&[u8], Vec<u8>),
    FormatError<&[u8]>,
>)
    ensures
        agrees(result, doc_string_unicode_record(i@)),
{
    let (i, data) = parse_bytes(i, 0x40)?;
    if data.len() % 2 != 0 {
        Err(FormatError::UnexpectedValue)
    } else {
        Ok((i, data))
    }
}

/// Reads the bytes of the path to the Help file.
pub fn parse_help_file_1(i: &[u8]) -> (result: Result<(&[u8], Vec<u8>), FormatError<&[u8]>>)
    ensures
        agrees(result, data_record(i@, 0x06)),
{
    parse_bytes(i, 0x06)
}

/// Reads the bytes of the path to the Help file a second time.
pub fn parse_help_file_2(i: &[u8]) -> (result: Result<(&[u8], Vec<u8>), FormatError<&[u8]>>)
    ensures
        agrees(result, data_record(i@, 0x3d)),
{
    parse_bytes(i, 0x3d)
}

/// Reads the Help topic identifier.
pub fn parse_help_context(i: &[u8]) -> (result: Result<(&[u8], u32), FormatError<&[u8]>>)
    ensures
        agrees(result, u32_record(i@, 0x07)),
{
    parse_u32_record(i, 0x07)
}

/// Reads the flags of the type library.
pub fn parse_lib_flags(i: &[u8]) -> (result: Result<(&[u8], u32), FormatError<&[u8]>>)
    ensures
        agrees(result, u32_record(i@, 0x08)),
{
    parse_u32_record(i, 0x08)
}

/// Reads the major and the minor version.
pub fn parse_version(i: &[u8]) -> (result: Result<(&[u8], (u32, u16)), FormatError<&[u8]>>)
    ensures
        agrees(result, version_record(i@)),
{
    let (i, major) = parse_u32_record(i, 0x09)?;
    let (i, minor) = le_u16(i)?;
    Ok((i, (major, minor)))
}

/// Reads the bytes of the compilation constants, where there are any.
pub fn parse_constants(i: &[u8]) -> (result: Result<
    (&[u8], Option<Vec<u8>>),
    FormatError<&[u8]>,
>)
    ensures
        agrees(result, constants_record(i@)),
{
    parse_optional_bytes(i, 0x0c)
}

/// Reads the bytes of the compilation constants in UTF-16, where there are any.
pub fn parse_constants_unicode(i: &[u8]) -> (result: Result<
    (&[u8], Option<Vec<u8>>),
    FormatError<&[u8]>,
>)
    ensures
        agrees(result, constants_unicode_record(i@)),
{
    parse_optional_bytes(i, 0x3c)
}

} // verus!
