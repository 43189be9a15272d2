use std::io::{Cursor, Write};

use ovba::compression::compress;
use ovba::layout::{has_apart_layout, has_safe_layout, has_tidy_layout};
use ovba::module_stream::{build_stream, find_module, path_of_stream, try_source_from};
use ovba::place::is_same_place;
use ovba::project::{is_decidable, try_read_dir};
use ovba::{open_project, try_open_project, Error, Project};

fn record(id: u16, content: &[u8]) -> Vec<u8> {
    let mut bytes = id.to_le_bytes().to_vec();
    bytes.extend_from_slice(&(content.len() as u32).to_le_bytes());
    bytes.extend_from_slice(content);
    bytes
}

/// A module: its name, the name of its stream and the place of its source code.
fn module(name: &str, stream: &str, offset: u32) -> Vec<u8> {
    [
        record(0x19, name.as_bytes()),
        record(0x1a, stream.as_bytes()),
        record(0x32, b""),
        record(0x1c, b""),
        record(0x48, b""),
        record(0x31, &offset.to_le_bytes()),
        record(0x1e, &[0; 4]),
        record(0x2c, &[0xff; 2]),
        record(0x21, b""),
        record(0x2b, b""),
    ]
    .concat()
}

fn dir(code_page: u16, modules: &[Vec<u8>]) -> Vec<u8> {
    [
        record(0x01, &[1, 0, 0, 0]),
        record(0x02, &[9, 4, 0, 0]),
        record(0x14, &[9, 4, 0, 0]),
        record(0x03, &code_page.to_le_bytes()),
        record(0x04, b"Project"),
        record(0x05, b""),
        record(0x40, b""),
        record(0x06, b""),
        record(0x3d, b""),
        record(0x07, &[0; 4]),
        record(0x08, &[0; 4]),
        vec![0x09, 0, 4, 0, 0, 0, 1, 0, 0, 0, 2, 0],
        record(0x0f, &(modules.len() as u16).to_le_bytes()),
        record(0x13, &[0xff; 2]),
        modules.concat(),
        record(0x10, b""),
    ]
    .concat()
}

/// A container with the data in chunks as they come.
fn compressed(data: &[u8]) -> Vec<u8> {
    let mut container = vec![1];
    for part in data.chunks(2048) {
        let content = compress(part).unwrap();
        let header = 0xb000 + (content.len() as u16 - 1);
        container.extend_from_slice(&header.to_le_bytes());
        container.extend_from_slice(&content);
    }
    container
}

/// A compound file with the given streams in its storage of code.
fn file(streams: &[(&str, Vec<u8>)]) -> Vec<u8> {
    let mut file =
        cfb::CompoundFile::create_with_version(cfb::Version::V3, Cursor::new(Vec::new())).unwrap();
    file.create_storage("/VBA").unwrap();
    for (path, data) in streams {
        file.create_stream(path).unwrap().write_all(data).unwrap();
    }
    file.flush().unwrap();
    file.into_inner().into_inner()
}

const SOURCE: &str = "Attribute VB_Name = \"NewMacros\"\r\nSub Hello()\r\nEnd Sub\r\n";

/// A project with two modules, of which the first has something in front of its source code.
fn sample(code_page: u16) -> Vec<u8> {
    let modules = [module("NewMacros", "NewMacros", 5), module("Other", "other", 0)];
    file(&[
        ("/VBA/dir", compressed(&dir(code_page, &modules))),
        ("/VBA/NewMacros", [b"cache".to_vec(), compressed(SOURCE.as_bytes())].concat()),
        ("/VBA/other", compressed(b"' other")),
        ("/PROJECT", b"text".to_vec()),
    ])
}

fn sample_project(code_page: u16) -> Project {
    open_project(sample(code_page)).unwrap()
}

#[test]
fn test_vba_modification() {
    let mut project = open_project(sample(1252)).unwrap();
    let original_source = project.module_source("NewMacros").unwrap();
    assert_eq!(original_source, SOURCE);
    let modified_source = format!("{}\n' This is a test\n", original_source);
    project.set_module_source("NewMacros", &modified_source).unwrap();
    let patched_data = project.save().unwrap();
    let patched_project = open_project(patched_data).unwrap();
    let source = patched_project.module_source("NewMacros").unwrap();
    assert!(source.contains("' This is a test"));
    assert_eq!(source, modified_source);
}

#[test]
fn project_is_opened() {
    let raw = sample(1252);
    let project = open_project(raw.clone()).unwrap();
    assert_eq!(project.original_raw_data, raw);
    assert_eq!(project.information.name, "Project");
    assert_eq!(project.information.code_page, 1252);
    assert_eq!(project.modules.len(), 2);
    assert!(project.references.is_empty());
    assert!(is_decidable(&raw));
    assert!(matches!(try_open_project(raw), Some(Ok(_))));
}

#[test]
fn project_is_rejected() {
    let cfb = |raw: Vec<u8>| matches!(open_project(raw), Err(Error::Cfb(_)));
    assert!(cfb(vec![]));
    assert!(cfb(vec![0; 4096]));
    assert!(cfb(file(&[])));
    assert!(matches!(
        open_project(file(&[("/VBA/dir", b"\x02".to_vec())])),
        Err(Error::Decompressor)
    ));
    assert!(matches!(
        open_project(file(&[("/VBA/dir", compressed(b"nothing"))])),
        Err(Error::Parser)
    ));
    assert!(matches!(
        try_open_project(file(&[("/VBA/dir", compressed(b"nothing"))])),
        Some(Err(Error::Parser))
    ));
}

#[test]
fn project_is_not_decidable() {
    // A chunk that is cut off.
    let raw = file(&[("/VBA/dir", b"\x01\x05\x30abc".to_vec())]);
    assert!(!is_decidable(&raw));
    assert!(try_open_project(raw).is_none());
    // A code page that is not known.
    assert!(!is_decidable(&sample(1)));
    assert!(try_open_project(sample(1)).is_none());
}

#[test]
fn dir_stream_is_read_as_a_whole() {
    assert!(matches!(try_read_dir(b""), Some(Err(Error::Decompressor))));
    assert!(matches!(try_read_dir(&compressed(b"x")), Some(Err(Error::Parser))));
    assert!(try_read_dir(&compressed(&dir(1, &[]))).is_none());
    match try_read_dir(&compressed(&dir(1252, &[]))) {
        Some(Ok(information)) => assert_eq!(information.information.version_minor, 2),
        _ => panic!("not read"),
    }
}

#[test]
fn entries_are_listed() {
    let project = sample_project(1252);
    let mut entries = project.list().unwrap();
    assert_eq!(entries[0], ("Root Entry".to_string(), "/".to_string()));
    entries.sort();
    let expected = [
        ("NewMacros", "/VBA/NewMacros"),
        ("PROJECT", "/PROJECT"),
        ("Root Entry", "/"),
        ("VBA", "/VBA"),
        ("dir", "/VBA/dir"),
        ("other", "/VBA/other"),
    ];
    assert_eq!(entries.len(), expected.len());
    for (entry, (name, path)) in entries.iter().zip(expected) {
        assert_eq!((entry.0.as_str(), entry.1.as_str()), (name, path));
    }
}

#[test]
fn streams_are_read() {
    let project = sample_project(1252);
    assert_eq!(project.read_stream("/PROJECT").unwrap(), b"text");
    // Letter case does not matter.
    assert_eq!(project.read_stream("/project").unwrap(), b"text");
    assert!(matches!(project.read_stream("/missing"), Err(Error::Cfb(_))));
    assert!(matches!(project.read_stream("/VBA"), Err(Error::Cfb(_))));
}

#[test]
fn streams_are_decompressed() {
    let project = sample_project(1252);
    assert_eq!(project.decompress_stream_from("/VBA/other", 0).unwrap(), b"' other");
    assert_eq!(
        project.decompress_stream_from("/VBA/NewMacros", 5).unwrap(),
        SOURCE.as_bytes()
    );
    for offset in [0, 4, 1000, usize::MAX] {
        assert!(matches!(
            project.decompress_stream_from("/VBA/NewMacros", offset),
            Err(Error::Decompressor)
        ));
    }
    assert!(matches!(
        project.decompress_stream_from("/PROJECT", 4),
        Err(Error::Decompressor)
    ));
    assert!(matches!(
        project.decompress_stream_from("/missing", 0),
        Err(Error::Cfb(_))
    ));
}

#[test]
fn source_code_is_read() {
    let project = sample_project(1252);
    assert_eq!(project.module_source_raw("NewMacros").unwrap(), SOURCE.as_bytes());
    assert_eq!(project.module_source("NewMacros").unwrap(), SOURCE);
    assert_eq!(project.module_source("Other").unwrap(), "' other");
    match project.module_source_raw("newmacros") {
        Err(Error::ModuleNotFound(name)) => assert_eq!(name, "newmacros"),
        other => panic!("{:?}", other),
    }
    assert!(matches!(project.module_source("Missing"), Err(Error::ModuleNotFound(_))));
}

#[test]
fn source_code_has_no_answer() {
    let modules = [module("Cut", "cut", 0), module("Gone", "gone", 0)];
    let mut project = open_project(file(&[
        ("/VBA/dir", compressed(&dir(1252, &modules))),
        ("/VBA/cut", b"\x01\x05\x30abc".to_vec()),
    ]))
    .unwrap();
    assert!(project.try_module_source_raw("Cut").is_none());
    assert!(project.try_module_source("Cut").is_none());
    assert!(project.try_decompress_stream_from("/VBA/cut", 0).is_none());
    assert!(matches!(project.try_module_source("Gone"), Some(Err(Error::Cfb(_)))));
    // The code page is looked at only now.
    project.information.code_page = 1;
    assert!(project.try_set_module_source("Cut", "text").is_none());
    assert!(matches!(
        project.try_set_module_source("Gone", "text"),
        Some(Err(Error::Cfb(_)))
    ));
}

#[test]
fn source_code_is_read_in_its_code_page() {
    let modules = [module("Text", "text", 0)];
    let raw = |code_page| {
        file(&[
            ("/VBA/dir", compressed(&dir(code_page, &modules))),
            ("/VBA/text", compressed(b"' \xe4")),
        ])
    };
    assert_eq!(open_project(raw(1252)).unwrap().module_source("Text").unwrap(), "' \u{e4}");
    assert_eq!(open_project(raw(1251)).unwrap().module_source("Text").unwrap(), "' \u{434}");
}

#[test]
fn source_code_is_set() {
    let mut project = sample_project(65001);
    let text = "' \u{20ac} and \u{3042}\r\n";
    project.set_module_source("NewMacros", text).unwrap();
    assert_eq!(project.module_source("NewMacros").unwrap(), text);
    // What is in front of the source code stays, as do the other streams.
    let stream = project.read_stream("/VBA/NewMacros").unwrap();
    assert_eq!(stream, build_stream(b"cache", text.as_bytes()).unwrap());
    assert!(stream.starts_with(b"cache\x01"));
    assert_eq!(project.module_source("Other").unwrap(), "' other");
    assert_eq!(project.read_stream("/PROJECT").unwrap(), b"text");
    assert_eq!(project.list().unwrap().len(), 6);
}

#[test]
fn source_code_that_was_set_before_does_not_matter() {
    let mut once = sample_project(1252);
    once.set_module_source("NewMacros", "second").unwrap();
    let mut twice = sample_project(1252);
    twice.set_module_source("NewMacros", "first, and longer").unwrap();
    twice.set_module_source("NewMacros", "second").unwrap();
    assert_eq!(
        once.read_stream("/VBA/NewMacros").unwrap(),
        twice.read_stream("/VBA/NewMacros").unwrap()
    );
}

#[test]
fn source_code_is_not_set() {
    let mut project = sample_project(1252);
    match project.set_module_source("Missing", "text") {
        Err(Error::ModuleNotFound(name)) => assert_eq!(name, "Missing"),
        other => panic!("{:?}", other),
    }
    match project.set_module_source("NewMacros", "") {
        Err(Error::Generic(reason)) => {
            assert_eq!(reason, "Compressed data part is empty, cannot form header")
        }
        other => panic!("{:?}", other),
    }
    let mut state: u32 = 1;
    let long: String = (0..5000)
        .map(|_| {
            state = state.wrapping_mul(1103515245).wrapping_add(12345);
            (b'!' + ((state >> 16) % 90) as u8) as char
        })
        .collect();
    match project.set_module_source("NewMacros", &long) {
        Err(Error::Generic(reason)) => assert_eq!(
            reason,
            format!(
                "Compressed data part too large ({}) for chunk size field (max 4096)",
                compress(long.as_bytes()).unwrap().len()
            )
        ),
        other => panic!("{:?}", other),
    }
    assert_eq!(project.module_source("NewMacros").unwrap(), SOURCE);
    assert!(project.try_set_module_source("NewMacros", "\u{3042}").is_none());
    assert_eq!(project.module_source("NewMacros").unwrap(), SOURCE);
}

#[test]
fn source_code_cannot_lie_behind_its_stream() {
    let modules = [module("Far", "far", 10)];
    let mut project = open_project(file(&[
        ("/VBA/dir", compressed(&dir(1252, &modules))),
        ("/VBA/far", b"short".to_vec()),
    ]))
    .unwrap();
    match project.set_module_source("Far", "text") {
        Err(Error::Generic(reason)) => {
            assert_eq!(reason, "Module text_offset exceeds stream data length")
        }
        other => panic!("{:?}", other),
    }
    assert!(matches!(project.module_source("Far"), Err(Error::Decompressor)));
}

#[test]
fn large_streams_are_replaced() {
    let cache = vec![7u8; 10000];
    let modules = [module("Large", "large", 10000), module("Small", "small", 0)];
    let mut project = open_project(file(&[
        ("/VBA/dir", compressed(&dir(1252, &modules))),
        ("/VBA/large", [cache.clone(), compressed(b"old")].concat()),
        ("/VBA/small", compressed(b"small")),
    ]))
    .unwrap();
    project.set_module_source("Large", "new").unwrap();
    let text = "Debug.Print 1\r\n".repeat(200);
    project.set_module_source("Small", &text).unwrap();
    let project = open_project(project.save().unwrap()).unwrap();
    assert_eq!(project.module_source("Large").unwrap(), "new");
    assert!(project.read_stream("/VBA/large").unwrap().starts_with(&cache));
    assert_eq!(project.module_source("Small").unwrap(), text);
}

#[test]
fn saved_project_is_read_back() {
    let mut project = sample_project(1252);
    let entries = project.list().unwrap();
    let raw = project.save().unwrap();
    assert!(has_apart_layout(&raw));
    let again = open_project(raw).unwrap();
    assert_eq!(again.list().unwrap(), entries);
    assert_eq!(again.module_source("NewMacros").unwrap(), SOURCE);
    assert_eq!(again.information.name, project.information.name);
    assert_eq!(again.modules.len(), project.modules.len());
}

#[test]
fn saving_empties_the_compound_file() {
    let mut project = sample_project(1252);
    project.save().unwrap();
    assert_eq!(
        project.list().unwrap(),
        vec![("Root Entry".to_string(), "/".to_string())]
    );
    assert!(matches!(project.read_stream("/VBA/dir"), Err(Error::Cfb(_))));
    assert!(matches!(project.module_source("NewMacros"), Err(Error::Cfb(_))));
    assert_eq!(project.modules.len(), 2);
}

#[test]
fn changed_project_is_read_back() {
    let mut project = sample_project(932);
    project.set_module_source("Other", "' changed\r\n").unwrap();
    let raw = project.save().unwrap();
    let again = open_project(raw).unwrap();
    assert_eq!(again.module_source("Other").unwrap(), "' changed\r\n");
    assert_eq!(again.module_source("NewMacros").unwrap(), SOURCE);
}

#[test]
fn first_module_of_a_name_counts() {
    let modules = [module("Same", "a", 0), module("Same", "b", 0)];
    let project = open_project(file(&[
        ("/VBA/dir", compressed(&dir(1252, &modules))),
        ("/VBA/a", compressed(b"first")),
        ("/VBA/b", compressed(b"second")),
    ]))
    .unwrap();
    assert_eq!(project.module_source("Same").unwrap(), "first");
    assert_eq!(find_module(&project.modules, "Same").unwrap().stream_name, "a");
    assert!(find_module(&project.modules, "").is_none());
}

#[test]
fn stream_name_may_start_at_the_root() {
    assert_eq!(path_of_stream("Module1"), "/VBA/Module1");
    assert_eq!(path_of_stream("/Module1"), "/Module1");
    assert_eq!(path_of_stream(""), "/VBA/");
    let modules = [module("Root", "/root", 0)];
    let project = open_project(file(&[
        ("/VBA/dir", compressed(&dir(1252, &modules))),
        ("/root", compressed(b"at the root")),
    ]))
    .unwrap();
    assert_eq!(project.module_source("Root").unwrap(), "at the root");
}

#[test]
fn stream_is_built() {
    assert_eq!(build_stream(b"cache", b"A").unwrap(), b"cache\x01\x01\xb0\x00A");
    assert_eq!(build_stream(b"", &[b'a'; 8]).unwrap(), b"\x01\x03\xb0\x02a\x04\x00");
    match try_source_from(&build_stream(b"cache", b"text").unwrap(), 5) {
        Some(Ok(source)) => assert_eq!(source, b"text"),
        _ => panic!("not read back"),
    }
    assert!(matches!(build_stream(b"cache", b""), Err(Error::Generic(_))));
}

/// All streams of a compound file that can be read.
fn streams(project: &Project) -> Vec<(String, Vec<u8>)> {
    let mut streams = Vec::new();
    for (_, path) in project.list().unwrap() {
        if let Ok(data) = project.read_stream(&path) {
            streams.push((path, data));
        }
    }
    streams.sort_by_key(|stream| stream.0.to_uppercase());
    streams
}

/// Changes a project, and looks whether its source code is as expected where that succeeds.
fn change(raw: &[u8]) {
    for name in ["Small", "Large"] {
        for text in ["short".to_string(), "' some text that is longer\r\n".repeat(20)] {
            if let Some(Ok(mut project)) = try_open_project(raw.to_vec()) {
                let ordered = project.has_ordered_directory();
                match project.try_set_module_source(name, &text) {
                    Some(Ok(())) => assert_eq!(project.module_source(name).unwrap(), text),
                    Some(Err(Error::Cfb(_))) | Some(Err(Error::Io(_))) => {
                        let project = try_open_project(raw.to_vec()).unwrap().unwrap();
                        let path = format!("/VBA/{}", name);
                        assert!(!ordered || project.read_stream(&path).is_err());
                    }
                    Some(Err(Error::ModuleNotFound(_))) | Some(Err(Error::Generic(_))) => {}
                    None => assert!(!has_apart_layout(raw) || !ordered || !has_tidy_layout(raw)),
                    other => panic!("{:?}", other),
                }
                assert!(project.save().unwrap().len() <= raw.len() + 2 * 10000 + 0x1_0000);
            }
        }
    }
}

/// Changes a project in a sound file, and looks whether all of the file is as expected.
fn change_and_compare(raw: Vec<u8>) -> bool {
    change(&raw);
    let apart = has_apart_layout(&raw);
    let mut project = match try_open_project(raw.clone()) {
        Some(Ok(project)) => project,
        _ => return false,
    };
    if !apart || !project.has_ordered_directory() {
        assert_eq!(project.save().unwrap(), raw);
        return false;
    }
    let mut changed = false;
    for (name, path) in [("Small", "/VBA/small"), ("Large", "/VBA/large")] {
        for text in ["short".to_string(), "' some text that is longer\r\n".repeat(20)] {
            let before = streams(&project);
            if let Some(Ok(())) = project.try_set_module_source(name, &text) {
                let after = streams(&project);
                // Others may become readable where the last sector was cut off.
                assert!(before.len() == after.len() || raw.len() % 512 != 0);
                for old in &before {
                    let new = after.iter().find(|new| is_same_place(&new.0, &old.0)).unwrap();
                    if is_same_place(&old.0, path) {
                        assert_eq!(new.1[..4], old.1[..4]);
                        assert_ne!(new.1, old.1);
                    } else {
                        assert_eq!(old, new);
                    }
                }
                assert_eq!(project.module_source(name).unwrap(), text);
                changed = true;
            }
        }
    }
    assert!(project.has_ordered_directory());
    let before = streams(&project);
    let entries = project.list().unwrap();
    let raw = project.save().unwrap();
    assert!(has_apart_layout(&raw));
    let again = open_project(raw).unwrap();
    assert!(again.has_ordered_directory());
    assert_eq!(streams(&again), before);
    assert_eq!(again.list().unwrap(), entries);
    changed
}

fn damaged_sample() -> Vec<u8> {
    let modules = [module("Small", "small", 4), module("Large", "large", 5000)];
    file(&[
        ("/VBA/dir", compressed(&dir(1252, &modules))),
        ("/VBA/small", [b"1234".to_vec(), compressed(b"small source")].concat()),
        ("/VBA/large", [vec![9; 5000], compressed(b"large source")].concat()),
        ("/VBA/empty", vec![]),
        ("/other", vec![5; 300]),
        ("/another", vec![6; 4500]),
    ])
}

#[test]
fn undamaged_file_can_be_changed() {
    assert!(change_and_compare(damaged_sample()));
}

#[test]
fn sound_files_can_be_changed_whatever_the_sector_tables_say() {
    let raw = damaged_sample();
    let sector = |id: u32| (id as usize + 1) * 512;
    let word = |at: usize| u32::from_le_bytes([raw[at], raw[at + 1], raw[at + 2], raw[at + 3]]);
    let count = (raw.len() / 512 - 1) as u32;
    let mut positions: Vec<usize> = Vec::new();
    for entry in 0..count as usize + 1 {
        positions.push(sector(word(76)) + 4 * entry);
        positions.push(sector(word(60)) + 4 * entry);
    }
    let values: Vec<u32> = (0..count + 1)
        .step_by(3)
        .chain([0xffff_fffd, 0xffff_fffe, 0xffff_ffff])
        .collect();
    let mut changed = 0;
    for &at in &positions {
        for value in &values {
            let mut raw = raw.clone();
            raw[at..at + 4].copy_from_slice(&value.to_le_bytes());
            if change_and_compare(raw) {
                changed += 1;
            }
        }
    }
    assert!(changed > 0);
}

#[test]
fn sound_files_can_be_changed_whatever_the_directory_says() {
    let raw = damaged_sample();
    let count = (raw.len() / 512 - 1) as u32;
    let mut changed = 0;
    for entry in (512..raw.len()).step_by(128) {
        let kind = raw[entry + 66];
        if kind != 2 && kind != 5 || raw[entry + 67] > 1 {
            continue;
        }
        for value in (0..count + 1).chain([0xffff_fffe, 0xffff_ffff]) {
            let mut raw = raw.clone();
            raw[entry + 116..entry + 120].copy_from_slice(&value.to_le_bytes());
            if change_and_compare(raw) {
                changed += 1;
            }
        }
        for length in [0u32, 1, 64, 100, 4095, 4096, 5000, 100000] {
            let mut raw = raw.clone();
            raw[entry + 120..entry + 124].copy_from_slice(&length.to_le_bytes());
            if change_and_compare(raw) {
                changed += 1;
            }
        }
    }
    assert!(changed > 0);
}

/// The positions of the directory entries of a file with sectors of 512 bytes.
fn directory_entries(raw: &[u8]) -> Vec<usize> {
    let word = |at: usize| u32::from_le_bytes([raw[at], raw[at + 1], raw[at + 2], raw[at + 3]]);
    let table = (word(76) as usize + 1) * 512;
    let mut sector = word(48);
    let mut entries = Vec::new();
    while sector <= 0xffff_fffa {
        let at = (sector as usize + 1) * 512;
        entries.extend((at..at + 512).step_by(128));
        sector = word(table + 4 * sector as usize);
    }
    entries
}

#[test]
fn sound_files_can_be_changed_whatever_the_links_in_the_directory_say() {
    let raw = damaged_sample();
    let entries = directory_entries(&raw);
    let mut changed = 0;
    for &entry in &entries {
        for field in [68, 72, 76] {
            for value in (0..entries.len() as u32).chain([0xffff_ffff]) {
                let mut raw = raw.clone();
                raw[entry + field..entry + field + 4].copy_from_slice(&value.to_le_bytes());
                if change_and_compare(raw) {
                    changed += 1;
                }
            }
        }
    }
    assert!(changed > 0);
}

#[test]
fn sound_files_can_be_changed_whatever_the_names_in_the_directory_are() {
    let raw = damaged_sample();
    let names = [
        "", ".", "..", "dir", "DIR", "small", "Small", "large", "other", "another", "VBA", "a",
        "zzzzzzzzzz", "d\u{131}r", "\u{17f}mall", "\u{1f600}",
    ];
    let mut changed = 0;
    for entry in directory_entries(&raw) {
        for name in names {
            let mut raw = raw.clone();
            let units: Vec<u16> = name.encode_utf16().collect();
            raw[entry..entry + 64].fill(0);
            for (k, unit) in units.iter().enumerate() {
                raw[entry + 2 * k..entry + 2 * k + 2].copy_from_slice(&unit.to_le_bytes());
            }
            raw[entry + 64] = 2 * units.len() as u8 + 2;
            if change_and_compare(raw) {
                changed += 1;
            }
        }
    }
    assert!(changed > 0);
}

#[test]
fn directory_with_a_name_out_of_order_is_found() {
    // A storage with three streams, of which the one that is found last gets a name that belongs
    // to the other side of the first.
    let raw = damaged_sample();
    let project = open_project(raw.clone()).unwrap();
    assert!(project.has_ordered_directory());
    let mut found = 0;
    for entry in directory_entries(&raw) {
        for name in ["a", "zzzzzzzzzz"] {
            let mut raw = raw.clone();
            raw[entry..entry + 64].fill(0);
            for (k, byte) in name.bytes().enumerate() {
                raw[entry + 2 * k] = byte;
            }
            raw[entry + 64] = 2 * name.len() as u8 + 2;
            if let Some(Ok(mut project)) = try_open_project(raw.clone()) {
                if !project.has_ordered_directory() {
                    found += 1;
                    assert_eq!(project.save().unwrap(), raw);
                }
            }
        }
    }
    assert!(found > 0);
}

#[test]
fn last_sector_that_is_cut_off_does_not_matter() {
    let raw = damaged_sample();
    let end = raw.iter().rposition(|&byte| byte != 0).unwrap() + 1;
    assert!(end < raw.len());
    assert!(change_and_compare(raw[..end].to_vec()));
    assert!(change_and_compare(raw[..raw.len() - 1].to_vec()));
    for length in raw.len() - 600..raw.len() {
        change_and_compare(raw[..length].to_vec());
    }
}

/// The file with two modules, and with sectors and small sectors that are free.
fn sample_with_gaps() -> Vec<u8> {
    let mut file = cfb::CompoundFile::open(Cursor::new(damaged_sample())).unwrap();
    let further = [("/gap", 5000), ("/small gap", 1000), ("/end", 4500), ("/small end", 200)];
    for (path, length) in further {
        file.create_stream(path).unwrap().write_all(&vec![7; length]).unwrap();
    }
    file.remove_stream("/gap").unwrap();
    file.remove_stream("/small gap").unwrap();
    file.flush().unwrap();
    file.into_inner().into_inner()
}

#[test]
fn sound_files_can_be_changed_whatever_two_words_of_the_sector_tables_say() {
    let raw = sample_with_gaps();
    assert!(change_and_compare(raw.clone()));
    let word = |at: usize| u32::from_le_bytes([raw[at], raw[at + 1], raw[at + 2], raw[at + 3]]);
    let count = (raw.len() / 512 - 1) as u32;
    let mut state: u32 = 2463534242;
    let mut next = |limit: u32| {
        state ^= state << 13;
        state ^= state >> 17;
        state ^= state << 5;
        (state >> 3) % limit
    };
    let (mut changed, mut left_out) = (0, 0);
    for _ in 0..3000 {
        let mut damaged = raw.clone();
        for _ in 0..2 {
            let small = next(2) == 0;
            let (table, entries) = if small { (word(60), 60) } else { (word(76), count + 2) };
            let at = (table as usize + 1) * 512 + 4 * next(entries) as usize;
            let value = match next(4) {
                0 => 0xffff_fffe,
                1 => 0xffff_ffff,
                _ => next(entries),
            };
            damaged[at..at + 4].copy_from_slice(&value.to_le_bytes());
        }
        if change_and_compare(damaged) {
            changed += 1;
        } else {
            left_out += 1;
        }
    }
    assert!(changed > 0 && left_out > 0);
}

#[test]
fn file_with_an_entry_that_points_to_a_free_sector_may_not_open_again() {
    let mut raw = sample_with_gaps();
    let word = |at: usize| u32::from_le_bytes([raw[at], raw[at + 1], raw[at + 2], raw[at + 3]]);
    let table = (word(76) as usize + 1) * 512;
    let free: Vec<usize> = (0..60).filter(|k| word(table + 4 * k) == 0xffff_ffff).collect();
    raw[table + 4 * free[0]..table + 4 * free[0] + 4]
        .copy_from_slice(&(free[1] as u32).to_le_bytes());
    assert!(!has_apart_layout(&raw));
    // Source code that takes further sectors is read back from the file in memory all the same.
    let mut state: u32 = 1;
    let text: String = (0..3000)
        .map(|_| {
            state = state.wrapping_mul(1103515245).wrapping_add(12345);
            (b'!' + ((state >> 16) % 90) as u8) as char
        })
        .collect();
    let mut project = open_project(raw).unwrap();
    assert!(project.has_ordered_directory());
    assert!(matches!(project.try_set_module_source("Large", &text), Some(Ok(()))));
    assert_eq!(project.module_source("Large").unwrap(), text);
    // After that nothing is known of the sectors any more.
    assert!(project.try_set_module_source("Large", &text).is_none());
    assert!(try_open_project(project.save().unwrap()).unwrap().is_err());
}

#[test]
fn empty_stream_with_a_sector_does_not_matter_for_others() {
    let mut raw = damaged_sample();
    let entry = directory_entries(&raw)
        .into_iter()
        .find(|&at| raw[at..].starts_with(b"e\0m\0p\0t\0y\0"))
        .unwrap();
    raw[entry + 116..entry + 120].copy_from_slice(&0u32.to_le_bytes());
    assert!(!has_tidy_layout(&raw));
    assert!(has_safe_layout(&raw));
    assert!(change_and_compare(raw));
}

#[test]
fn unchanged_project_is_saved_as_it_was() {
    let raw = sample(1252);
    assert_eq!(open_project(raw.clone()).unwrap().save().unwrap(), raw);
    let mut cut = damaged_sample();
    cut.pop();
    assert_eq!(open_project(cut.clone()).unwrap().save().unwrap(), cut);
}

#[test]
fn long_source_code_is_read_back() {
    for length in [4095, 4096, 4097, 5000, 8192, 9000] {
        let text = "a".repeat(length);
        let mut project = sample_project(1252);
        project.set_module_source("NewMacros", &text).unwrap();
        assert_eq!(project.module_source("NewMacros").unwrap(), text);
        let again = open_project(project.save().unwrap()).unwrap();
        assert_eq!(again.module_source("NewMacros").unwrap(), text);
        assert_eq!(again.module_source("Other").unwrap(), "' other");
    }
}

#[test]
fn text_of_one_byte_characters_is_read_back() {
    let text = "' \u{e4}\u{20ac}\u{2122}\r\n";
    let mut project = sample_project(1252);
    project.set_module_source("NewMacros", text).unwrap();
    assert_eq!(project.module_source("NewMacros").unwrap(), text);
    let again = open_project(project.save().unwrap()).unwrap();
    assert_eq!(again.module_source("NewMacros").unwrap(), text);
}

#[test]
fn module_may_be_in_the_dir_stream() {
    let modules = [
        module("Dir", "DIR", 0),
        module("Path", "/VBA/x/../dir", 0),
        module("Plain", "plain", 0),
        module("Root", "/dir", 0),
    ];
    let project = open_project(file(&[("/VBA/dir", compressed(&dir(1252, &modules)))])).unwrap();
    assert!(project.is_in_dir_stream("Dir"));
    assert!(project.is_in_dir_stream("Path"));
    assert!(!project.is_in_dir_stream("Plain"));
    assert!(!project.is_in_dir_stream("Root"));
    assert!(!project.is_in_dir_stream("Missing"));
}

#[test]
fn paths_denote_places() {
    assert!(is_same_place("/VBA/Module1", "/vba/MODULE1"));
    assert!(!is_same_place("/VBA/Module1", "/VBA/dir"));
    let names = [
        "dir", "DIR", "d\u{131}r", "D\u{130}R", "\u{df}", "ss", "SS", "\u{e4}", "\u{c4}",
        "\u{1f600}", "ab", "s", "\u{17f}", "[", "{", "@", "`", "A1", "a1", "\u{149}", "\u{2bc}N",
    ];
    for name in names {
        for other in names {
            let raw = file(&[(&format!("/VBA/{}", name), vec![1])]);
            let container = cfb::CompoundFile::open(Cursor::new(raw)).unwrap();
            for (prefix, suffix) in [("/VBA/", ""), ("vba//", "/."), ("x/../VBA/./", "/")] {
                let path = format!("{}{}{}", prefix, other, suffix);
                assert_eq!(
                    is_same_place(&format!("/VBA/{}", name), &path),
                    container.exists(&path),
                    "{} {}",
                    name,
                    path
                );
            }
        }
    }
    for path in ["/..", "/VBA/../..", "..", "x/../../VBA"] {
        assert!(!is_same_place(path, path));
        let container = cfb::CompoundFile::open(Cursor::new(file(&[]))).unwrap();
        assert!(!container.exists(path));
    }
    assert!(is_same_place("/", ""));
    assert!(is_same_place("/VBA", "/x/../VBA/."));
}
