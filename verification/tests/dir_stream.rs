use ovba::dir_stream::{check_texts, parse_project_information};
use ovba::format::{ErrorKind, FormatError};
use ovba::information::{
    parse_code_page, parse_compat, parse_constants, parse_constants_unicode, parse_doc_string,
    parse_doc_string_unicode, parse_help_context, parse_help_file_1, parse_help_file_2, parse_lcid,
    parse_lcid_invoke, parse_lib_flags, parse_name, parse_syskind, parse_version,
};
use ovba::modules::{parse_module, parse_modules};
use ovba::references::{
    parse_reference, parse_reference_control, parse_reference_name, parse_reference_original,
    parse_reference_project, parse_reference_registered, parse_references,
};
use ovba::{ModuleType, Reference, SysKind};

/// A record: its identifier, the size of its content and the content.
fn record(id: u16, content: &[u8]) -> Vec<u8> {
    let mut bytes = id.to_le_bytes().to_vec();
    bytes.extend_from_slice(&(content.len() as u32).to_le_bytes());
    bytes.extend_from_slice(content);
    bytes
}

/// A record that holds data with a size of its own.
fn nested(id: u16, content: &[u8]) -> Vec<u8> {
    let mut inner = (content.len() as u32).to_le_bytes().to_vec();
    inner.extend_from_slice(content);
    record(id, &inner)
}

fn utf_16(text: &str) -> Vec<u8> {
    text.encode_utf16().flat_map(|unit| unit.to_le_bytes()).collect()
}

fn join(parts: &[Vec<u8>]) -> Vec<u8> {
    parts.concat()
}

fn reference_name_records(name: &str) -> Vec<u8> {
    join(&[record(0x16, name.as_bytes()), record(0x3e, &utf_16(name))])
}

fn module_records(name: &str, stream: &str, offset: u32, type_id: u16, flags: &[u16]) -> Vec<u8> {
    let mut parts = vec![
        record(0x19, name.as_bytes()),
        record(0x47, &utf_16(name)),
        record(0x1a, stream.as_bytes()),
        record(0x32, &utf_16(stream)),
        record(0x1c, b"about"),
        record(0x48, &utf_16("about")),
        record(0x31, &offset.to_le_bytes()),
        record(0x1e, &7u32.to_le_bytes()),
        record(0x2c, &[0xff, 0xff]),
        record(type_id, b""),
    ];
    for &flag in flags {
        parts.push(record(flag, b""));
    }
    parts.push(record(0x2b, b""));
    join(&parts)
}

fn header(code_page: u16) -> Vec<u8> {
    join(&[
        record(0x01, &[1, 0, 0, 0]),
        record(0x4a, &[2, 0, 0, 0]),
        record(0x02, &0x409u32.to_le_bytes()),
        record(0x14, &0x410u32.to_le_bytes()),
        record(0x03, &code_page.to_le_bytes()),
    ])
}

fn texts() -> Vec<u8> {
    join(&[
        record(0x04, b"Pr\xe4fix"),
        record(0x05, b"doc"),
        record(0x40, &utf_16("doc")),
        record(0x06, b"help.chm"),
        record(0x3d, b"help.chm"),
        record(0x07, &3u32.to_le_bytes()),
        record(0x08, &4u32.to_le_bytes()),
        vec![0x09, 0, 4, 0, 0, 0, 5, 0, 0, 0, 6, 0],
    ])
}

fn module_list(count: u16, modules: &[Vec<u8>]) -> Vec<u8> {
    join(&[
        record(0x0f, &count.to_le_bytes()),
        record(0x13, &[0xff, 0xff]),
        modules.concat(),
    ])
}

fn dir(code_page: u16) -> Vec<u8> {
    join(&[
        header(code_page),
        texts(),
        record(0x0c, b"A = 1"),
        record(0x3c, &utf_16("A = 1")),
        reference_name_records("stdole"),
        join(&[nested(0x0d, b"*\\G{0002}#2.0"), vec![0; 6]]),
        module_list(1, &[module_records("Module1", "Stream1", 9, 0x21, &[])]),
        record(0x10, b""),
    ])
}

#[test]
fn whole_dir_stream_is_read() {
    let input = dir(1252);
    let (rest, project) = parse_project_information(&input).unwrap();
    assert!(rest.is_empty());
    let information = project.information;
    assert_eq!(information.sys_kind, SysKind::Win32);
    assert_eq!(information.compat, Some(2));
    assert_eq!(information.lcid, 0x409);
    assert_eq!(information.lcid_invoke, 0x410);
    assert_eq!(information.code_page, 1252);
    assert_eq!(information.name, "Pr\u{e4}fix");
    assert_eq!(information.doc_string, "doc");
    assert_eq!(information.help_file_1, "help.chm");
    assert_eq!(information.help_context, 3);
    assert_eq!(information.lib_flags, 4);
    assert_eq!(information.version_major, 5);
    assert_eq!(information.version_minor, 6);
    assert_eq!(information.constants.as_deref(), Some("A = 1"));
    assert_eq!(project.references.len(), 1);
    match &project.references[0] {
        Reference::Registered(value) => {
            assert_eq!(value.name.as_deref(), Some("stdole"));
            assert_eq!(value.libid, "*\\G{0002}#2.0");
        }
        other => panic!("{:?}", other),
    }
    assert_eq!(project.modules.len(), 1);
    assert_eq!(project.modules[0].name, "Module1");
}

#[test]
fn text_is_read_in_the_code_page_of_the_stream() {
    let input = dir(1251);
    let (_, project) = parse_project_information(&input).unwrap();
    assert_eq!(project.information.name, "Pr\u{434}fix");
}

#[test]
fn bytes_behind_the_dir_stream_are_left() {
    let mut input = dir(1252);
    input.extend_from_slice(b"more");
    let (rest, _) = parse_project_information(&input).unwrap();
    assert_eq!(rest, b"more");
}

#[test]
fn dir_stream_needs_its_end() {
    let input = dir(1252);
    let cut = &input[..input.len() - 6];
    assert_eq!(
        parse_project_information(cut).unwrap_err(),
        FormatError::Syntax(&b""[..], ErrorKind::Tag)
    );
    let cut = &input[..input.len() - 1];
    assert_eq!(
        parse_project_information(cut).unwrap_err(),
        FormatError::Syntax(&b"\0\0\0"[..], ErrorKind::Tag)
    );
}

#[test]
fn constants_may_be_missing() {
    let input = join(&[
        header(1252),
        texts(),
        module_list(0, &[]),
        record(0x10, b""),
    ]);
    let (_, project) = parse_project_information(&input).unwrap();
    assert_eq!(project.information.constants, None);
    assert!(project.references.is_empty());
    assert!(project.modules.is_empty());
}

#[test]
fn unicode_constants_are_not_looked_for_alone() {
    let input = join(&[
        header(1252),
        texts(),
        record(0x3c, &utf_16("A = 1")),
        module_list(0, &[]),
        record(0x10, b""),
    ]);
    assert_eq!(
        parse_project_information(&input).unwrap_err(),
        FormatError::UnexpectedValue
    );
}

#[test]
fn unknown_code_page_matters_only_where_text_is_reached() {
    assert!(check_texts(&dir(1252)));
    assert!(!check_texts(&dir(1)));
    assert!(check_texts(&header(1)));
    assert!(check_texts(b""));
    let input = header(1);
    assert_eq!(
        parse_project_information(&input).unwrap_err(),
        FormatError::Syntax(&b""[..], ErrorKind::Tag)
    );
}

#[test]
fn sys_kinds() {
    for (value, sys_kind) in [
        (0u32, SysKind::Win16),
        (1, SysKind::Win32),
        (2, SysKind::MacOs),
        (3, SysKind::Win64),
    ] {
        let input = record(0x01, &value.to_le_bytes());
        assert_eq!(parse_syskind(&input), Ok((&b""[..], sys_kind)));
    }
    let input = record(0x01, &4u32.to_le_bytes());
    assert_eq!(parse_syskind(&input), Err(FormatError::UnexpectedValue));
}

#[test]
fn fixed_size_records() {
    let id = |id: u16| record(id, &[1, 2, 3, 4]);
    let value = 0x0403_0201;
    assert_eq!(parse_lcid(&id(0x02)), Ok((&b""[..], value)));
    assert_eq!(parse_lcid_invoke(&id(0x14)), Ok((&b""[..], value)));
    assert_eq!(parse_help_context(&id(0x07)), Ok((&b""[..], value)));
    assert_eq!(parse_lib_flags(&id(0x08)), Ok((&b""[..], value)));
    assert_eq!(parse_compat(&id(0x4a)), Ok((&b""[..], Some(value))));
    assert_eq!(parse_compat(&id(0x02)), Ok((&id(0x02)[..], None)));
    assert_eq!(
        parse_code_page(&record(0x03, &[0xe4, 0x04])),
        Ok((&b""[..], 1252))
    );
    assert_eq!(
        parse_version(b"\x09\0\x04\0\0\0\x01\0\0\0\x02\0rest"),
        Ok((&b"rest"[..], (1, 2)))
    );
}

#[test]
fn fixed_size_records_are_checked() {
    assert_eq!(
        parse_lcid(b"\x03\0\x04\0\0\0\0\0\0\0"),
        Err(FormatError::Syntax(&b"\x03\0\x04\0\0\0\0\0\0\0"[..], ErrorKind::Tag))
    );
    assert_eq!(
        parse_lcid(b"\x02\0\x05\0\0\0\0\0\0\0"),
        Err(FormatError::Syntax(&b"\x05\0\0\0\0\0\0\0"[..], ErrorKind::Tag))
    );
    assert_eq!(
        parse_lcid(b"\x02\0\x04\0\0\0\0\0\0"),
        Err(FormatError::Syntax(&b"\0\0\0"[..], ErrorKind::Eof))
    );
    assert_eq!(
        parse_version(b"\x09\0\x04\0\0\0\x01\0\0\0\x02"),
        Err(FormatError::Syntax(&b"\x02"[..], ErrorKind::Eof))
    );
}

#[test]
fn records_of_variable_size() {
    let input = |id: u16| join(&[record(id, b"abc"), b"rest".to_vec()]);
    let found = b"abc".to_vec();
    assert_eq!(parse_name(&input(0x04)), Ok((&b"rest"[..], found.clone())));
    assert_eq!(parse_doc_string(&input(0x05)), Ok((&b"rest"[..], found.clone())));
    assert_eq!(parse_help_file_1(&input(0x06)), Ok((&b"rest"[..], found.clone())));
    assert_eq!(parse_help_file_2(&input(0x3d)), Ok((&b"rest"[..], found.clone())));
    assert_eq!(parse_constants(&input(0x0c)), Ok((&b"rest"[..], Some(found.clone()))));
    assert_eq!(parse_constants_unicode(&input(0x3c)), Ok((&b"rest"[..], Some(found))));
    assert_eq!(parse_constants(b"rest"), Ok((&b"rest"[..], None)));
    assert_eq!(parse_constants_unicode(b""), Ok((&b""[..], None)));
    // An identifier without a size is as good as no record.
    assert_eq!(parse_constants(b"\x0c\0\x01"), Ok((&b"\x0c\0\x01"[..], None)));
}

#[test]
fn size_beyond_the_input_is_an_error_even_in_an_optional_record() {
    let input = b"\x04\0\x05\0\0\0abc";
    assert_eq!(parse_name(input), Err(FormatError::Incomplete(2)));
    let input = b"\x0c\0\x05\0\0\0abc";
    assert_eq!(parse_constants(input), Err(FormatError::Incomplete(2)));
}

#[test]
fn unicode_text_takes_two_bytes_for_a_unit() {
    assert_eq!(
        parse_doc_string_unicode(&record(0x40, b"abcd")),
        Ok((&b""[..], b"abcd".to_vec()))
    );
    assert_eq!(
        parse_doc_string_unicode(&record(0x40, b"abc")),
        Err(FormatError::UnexpectedValue)
    );
}

#[test]
fn reference_names() {
    let input = reference_name_records("name");
    assert_eq!(
        parse_reference_name(&input, 1252),
        Ok((&b""[..], Some("name".to_string())))
    );
    // The name in UTF-16 belongs to the record.
    let input = record(0x16, b"name");
    assert_eq!(parse_reference_name(&input, 1252), Ok((&input[..], None)));
    // The code page does not matter where there is no name.
    assert_eq!(parse_reference_name(b"", 1), Ok((&b""[..], None)));
}

#[test]
fn control_reference() {
    let body = join(&[
        nested(0x2f, b"twiddled"),
        vec![0; 6],
        reference_name_records("extended name"),
        nested(0x30, b"extended"),
        vec![0; 6],
        (0..16).collect(),
        0x1234u32.to_le_bytes().to_vec(),
    ]);
    let input = join(&[reference_name_records("control"), body.clone()]);
    match parse_reference(&input, 1252) {
        Ok((rest, Some(Reference::Control(value)))) => {
            assert!(rest.is_empty());
            assert_eq!(value.name.as_deref(), Some("control"));
            assert_eq!(value.libid_original, None);
            assert_eq!(value.libid_twiddled, "twiddled");
            assert_eq!(value.name_extended.as_deref(), Some("extended name"));
            assert_eq!(value.libid_extended, "extended");
            assert_eq!(value.guid, (0..16).collect::<Vec<u8>>());
            assert_eq!(value.cookie, 0x1234);
        }
        other => panic!("{:?}", other),
    }
    // Behind an original type library, the two are one reference for this parser alone.
    let input = join(&[record(0x33, b"original"), body]);
    let (_, value) = parse_reference_control(&input, 1252).unwrap();
    assert_eq!(value.libid_original.as_deref(), Some("original"));
    assert_eq!(value.name, None);
}

#[test]
fn control_reference_is_checked() {
    let input = join(&[nested(0x2f, b"twiddled"), vec![0, 0, 0, 0, 0, 1]]);
    assert_eq!(
        parse_reference_control(&input, 1252).unwrap_err(),
        FormatError::Syntax(&b"\0\x01"[..], ErrorKind::Tag)
    );
    assert_eq!(
        parse_reference_control(b"\x2f", 1252).unwrap_err(),
        FormatError::Syntax(&b"\x2f"[..], ErrorKind::Eof)
    );
}

#[test]
fn original_reference() {
    let input = join(&[reference_name_records("original"), record(0x33, b"libid")]);
    match parse_reference(&input, 1252) {
        Ok((rest, Some(Reference::Original(value)))) => {
            assert!(rest.is_empty());
            assert_eq!(value.name.as_deref(), Some("original"));
            assert_eq!(value.libid_original, "libid");
        }
        other => panic!("{:?}", other),
    }
    assert_eq!(
        parse_reference_original(&record(0x33, b"libid"), 1252),
        Ok((&b""[..], "libid".to_string()))
    );
}

#[test]
fn registered_reference() {
    let input = join(&[nested(0x0d, b"libid"), vec![0; 6]]);
    let (rest, value) = parse_reference_registered(&input, 1252).unwrap();
    assert!(rest.is_empty());
    assert_eq!(value.name, None);
    assert_eq!(value.libid, "libid");
    assert_eq!(
        parse_reference_registered(&input[..input.len() - 1], 1252).unwrap_err(),
        FormatError::Syntax(&b"\0"[..], ErrorKind::Tag)
    );
}

#[test]
fn project_reference() {
    let mut inner = nested(0x0e, b"absolute");
    inner.extend_from_slice(&8u32.to_le_bytes());
    inner.extend_from_slice(b"relative");
    inner.extend_from_slice(&[1, 0, 0, 0, 2, 0]);
    let (rest, value) = parse_reference_project(&inner, 1252).unwrap();
    assert!(rest.is_empty());
    assert_eq!(value.libid_absolute, "absolute");
    assert_eq!(value.libid_relative, "relative");
    assert_eq!(value.major_version, 1);
    assert_eq!(value.minor_version, 2);
    match parse_reference(&inner, 1252) {
        Ok((_, Some(Reference::Project(value)))) => assert_eq!(value.name, None),
        other => panic!("{:?}", other),
    }
}

#[test]
fn references_end_where_the_modules_start() {
    let input = join(&[
        record(0x33, b"first"),
        record(0x33, b"second"),
        vec![0x0f, 0, 0xaa],
    ]);
    let (rest, references) = parse_references(&input, 1252).unwrap();
    assert_eq!(rest, b"\x0f\0\xaa");
    assert_eq!(references.len(), 2);
    // No text, no code page.
    let (rest, references) = parse_references(b"\x0f\0", 1).unwrap();
    assert_eq!(rest, b"\x0f\0");
    assert!(references.is_empty());
}

#[test]
fn unknown_reference_is_rejected() {
    assert_eq!(
        parse_references(b"\x77\0", 1252).unwrap_err(),
        FormatError::UnexpectedValue
    );
    assert_eq!(
        parse_references(b"", 1252).unwrap_err(),
        FormatError::Syntax(&b""[..], ErrorKind::Eof)
    );
}

#[test]
fn module_is_read() {
    let input = module_records("Name", "Stream", 0x1234, 0x22, &[0x25, 0x28]);
    let (rest, module) = parse_module(&input, 1252).unwrap();
    assert!(rest.is_empty());
    assert_eq!(module.name, "Name");
    assert_eq!(module.stream_name, "Stream");
    assert_eq!(module.doc_string, "about");
    assert_eq!(module.text_offset, 0x1234);
    assert_eq!(module.help_context, 7);
    assert_eq!(module.module_type, ModuleType::DocClsDesigner);
    assert!(module.read_only);
    assert!(module.private);
    for (flags, read_only, private) in [
        (&[][..], false, false),
        (&[0x25][..], true, false),
        (&[0x28][..], false, true),
    ] {
        let input = module_records("Name", "Stream", 0, 0x21, flags);
        let (_, module) = parse_module(&input, 1252).unwrap();
        assert_eq!(module.module_type, ModuleType::Procedural);
        assert_eq!((module.read_only, module.private), (read_only, private));
    }
}

#[test]
fn module_name_in_unicode_may_be_missing() {
    let input = module_records("Name", "Stream", 0, 0x21, &[]);
    let name = record(0x19, b"Name").len();
    let unicode = record(0x47, &utf_16("Name")).len();
    let input = [&input[..name], &input[name + unicode..]].concat();
    let (_, module) = parse_module(&input, 1252).unwrap();
    assert_eq!(module.name, "Name");
}

#[test]
fn module_is_checked() {
    let input = module_records("Name", "Stream", 0, 0x23, &[]);
    assert_eq!(
        parse_module(&input, 1252).unwrap_err(),
        FormatError::UnexpectedValue
    );
    // The flags come in a fixed order.
    let input = module_records("Name", "Stream", 0, 0x21, &[0x28, 0x25]);
    assert_eq!(
        parse_module(&input, 1252).unwrap_err(),
        FormatError::Syntax(
            &b"\x25\0\0\0\0\0\x2b\0\0\0\0\0"[..],
            ErrorKind::Tag
        )
    );
    assert_eq!(
        parse_module(b"", 1).unwrap_err(),
        FormatError::Syntax(&b""[..], ErrorKind::Tag)
    );
}

#[test]
fn modules_are_counted() {
    let first = module_records("First", "A", 1, 0x21, &[]);
    let second = module_records("Second", "B", 2, 0x22, &[]);
    let input = module_list(1, &[first.clone(), second.clone()]);
    let (rest, modules) = parse_modules(&input, 1252).unwrap();
    assert_eq!(rest, &second[..]);
    assert_eq!(modules.len(), 1);
    let input = module_list(2, &[first.clone(), second]);
    let (rest, modules) = parse_modules(&input, 1252).unwrap();
    assert!(rest.is_empty());
    assert_eq!(modules[1].name, "Second");
    let input = module_list(2, &[first]);
    assert_eq!(
        parse_modules(&input, 1252).unwrap_err(),
        FormatError::Syntax(&b""[..], ErrorKind::Tag)
    );
}

/// A *dir* stream with the given byte throughout the contents that are dropped.
fn dir_with_dropped(filler: u8) -> Vec<u8> {
    let mut module = module_records("Module1", "Stream1", 9, 0x21, &[0x25]);
    for (id, length) in [(0x47u16, 14usize), (0x32, 14), (0x48, 10), (0x2c, 2)] {
        let start = [&id.to_le_bytes()[..], &(length as u32).to_le_bytes()[..]].concat();
        let at = (0..module.len()).find(|&at| module[at..].starts_with(&start)).unwrap();
        module[at + 6..at + 6 + length].fill(filler);
    }
    join(&[
        header(1252),
        record(0x04, b"name"),
        record(0x05, b"doc"),
        record(0x40, &[filler; 6]),
        record(0x06, b"help.chm"),
        record(0x3d, &[filler; 8]),
        record(0x07, &3u32.to_le_bytes()),
        record(0x08, &4u32.to_le_bytes()),
        vec![0x09, 0, 4, 0, 0, 0, 5, 0, 0, 0, 6, 0],
        record(0x0c, b"A = 1"),
        record(0x3c, &[filler; 10]),
        record(0x16, b"stdole"),
        record(0x3e, &[filler; 12]),
        join(&[nested(0x0d, b"*\\G{0002}#2.0"), vec![0; 6]]),
        join(&[nested(0x2f, b"twiddled"), vec![0; 6]]),
        record(0x16, b"extended"),
        record(0x3e, &[filler; 16]),
        join(&[nested(0x30, b"library"), vec![0; 6], vec![1; 16], vec![2; 4]]),
        record(0x0f, &1u16.to_le_bytes()),
        record(0x13, &[filler; 2]),
        module,
        record(0x10, b""),
    ])
}

#[test]
fn dropped_contents_do_not_matter() {
    let first = dir_with_dropped(0);
    let (_, project) = parse_project_information(&first).unwrap();
    let expected = format!("{:?}", project);
    for filler in [1, 0x0c, 0x16, 0x80, 0xff] {
        let input = dir_with_dropped(filler);
        assert_eq!(input.len(), first.len());
        let (rest, project) = parse_project_information(&input).unwrap();
        assert!(rest.is_empty());
        assert_eq!(format!("{:?}", project), expected);
    }
    // All other bytes matter, apart from the outer sizes of nested records.
    let second = dir_with_dropped(1);
    let mut without_influence = 0;
    for at in 0..first.len() {
        let mut input = first.clone();
        input[at] ^= 1;
        if check_texts(&input) {
            match parse_project_information(&input) {
                Ok((_, project)) if format!("{:?}", project) == expected => without_influence += 1,
                _ => assert_eq!(first[at], second[at]),
            }
        } else {
            assert_eq!(first[at], second[at]);
        }
    }
    let dropped = (0..first.len()).filter(|&at| first[at] != second[at]).count();
    assert_eq!(dropped, 6 + 8 + 10 + 12 + 16 + 2 + 14 + 14 + 10 + 2);
    assert_eq!(without_influence, dropped + 3 * 4);
}

#[test]
fn constants_can_be_added() {
    let with = |records: &[Vec<u8>]| {
        join(&[
            header(1252),
            texts(),
            join(records),
            module_list(1, &[module_records("Module1", "Stream1", 9, 0x21, &[])]),
            record(0x10, b""),
            b"rest".to_vec(),
        ])
    };
    let plain = with(&[]);
    let (rest, mut expected) = parse_project_information(&plain).unwrap();
    assert_eq!(rest, b"rest");
    assert_eq!(expected.information.constants, None);
    for (constants, unicode) in [("B = 2", &b"\x01\x02\x03"[..]), ("", &[])] {
        let input = with(&[record(0x0c, constants.as_bytes()), record(0x3c, unicode)]);
        let (rest, project) = parse_project_information(&input).unwrap();
        assert_eq!(rest, b"rest");
        expected.information.constants = Some(constants.to_string());
        assert_eq!(format!("{:?}", project), format!("{:?}", expected));
    }
}

#[test]
fn flags_of_modules_are_records() {
    for type_id in [0x21, 0x22] {
        for flags in [&[][..], &[0x25], &[0x28], &[0x25, 0x28]] {
            let input = module_records("Module1", "Stream1", 9, type_id, flags);
            let (rest, module) = parse_module(&input, 1252).unwrap();
            assert!(rest.is_empty());
            assert_eq!(module.read_only, flags.contains(&0x25));
            assert_eq!(module.private, flags.contains(&0x28));
            // Without the name in UTF-16 the module is the same.
            let name = record(0x19, b"Module1");
            let unicode = record(0x47, &utf_16("Module1"));
            let shorter = [&name[..], &input[name.len() + unicode.len()..]].concat();
            let (_, same) = parse_module(&shorter, 1252).unwrap();
            assert_eq!(format!("{:?}", same), format!("{:?}", module));
        }
    }
    // In the other order the second is not found, and the end neither.
    let input = module_records("Module1", "Stream1", 9, 0x21, &[0x28, 0x25]);
    assert!(parse_module(&input, 1252).is_err());
}
