use std::io::{Cursor, Write};

use ovba::layout::{
    find_layout, find_layout_after, has_apart_layout, has_safe_layout, has_tidy_layout, Layout,
};

fn write(file: &mut cfb::CompoundFile<Cursor<Vec<u8>>>, path: &str, data: &[u8]) {
    file.create_stream(path).unwrap().write_all(data).unwrap();
}

/// A file with small and large streams.
fn sample(version: cfb::Version) -> Vec<u8> {
    let mut file =
        cfb::CompoundFile::create_with_version(version, Cursor::new(Vec::new())).unwrap();
    file.create_storage("/VBA").unwrap();
    write(&mut file, "/VBA/small", &[1; 100]);
    write(&mut file, "/VBA/other", &[2; 1000]);
    write(&mut file, "/VBA/empty", &[]);
    write(&mut file, "/large", &[3; 5000]);
    write(&mut file, "/VBA/larger", &[4; 20000]);
    file.flush().unwrap();
    file.into_inner().into_inner()
}

fn u32_at(raw: &[u8], at: usize) -> u32 {
    u32::from_le_bytes([raw[at], raw[at + 1], raw[at + 2], raw[at + 3]])
}

fn set_u32(raw: &mut [u8], at: usize, value: u32) {
    raw[at..at + 4].copy_from_slice(&value.to_le_bytes());
}

/// The position of the directory entry of the given name in a file with sectors of 512 bytes.
fn entry(raw: &[u8], name: &str) -> usize {
    let mut encoded: Vec<u8> = name.encode_utf16().flat_map(|unit| unit.to_le_bytes()).collect();
    encoded.extend_from_slice(&[0, 0]);
    (512..raw.len())
        .step_by(128)
        .find(|&at| raw[at..].starts_with(&encoded))
        .unwrap()
}

#[test]
fn written_files_have_streams_apart() {
    assert!(has_apart_layout(&sample(cfb::Version::V3)));
    assert!(has_apart_layout(&sample(cfb::Version::V4)));
    let empty = cfb::CompoundFile::create(Cursor::new(Vec::new())).unwrap();
    assert!(has_apart_layout(&empty.into_inner().into_inner()));
}

#[test]
fn streams_of_changed_files_stay_apart() {
    for version in [cfb::Version::V3, cfb::Version::V4] {
        let raw = sample(version);
        let mut file = cfb::CompoundFile::open(Cursor::new(raw)).unwrap();
        file.remove_stream("/VBA/small").unwrap();
        file.remove_stream("/large").unwrap();
        write(&mut file, "/VBA/small", &[5; 3000]);
        write(&mut file, "/VBA/new", &[6; 9000]);
        file.remove_stream("/VBA/other").unwrap();
        file.flush().unwrap();
        assert!(has_apart_layout(&file.into_inner().into_inner()));
    }
}

#[test]
fn other_bytes_are_not_apart() {
    assert!(!has_apart_layout(b""));
    assert!(!has_apart_layout(&[0; 511]));
    assert!(!has_apart_layout(&[0; 512]));
    assert!(!has_apart_layout(&[0xff; 4096]));
    assert!(!has_apart_layout(b""));
    assert!(!has_safe_layout(&[0; 512]));
}

#[test]
fn last_sector_may_be_cut_off() {
    for version in [cfb::Version::V3, cfb::Version::V4] {
        let mut raw = sample(version);
        assert!(has_apart_layout(&raw));
        assert!(has_safe_layout(&raw));
        raw.pop();
        assert!(has_apart_layout(&raw));
        assert!(has_safe_layout(&raw));
        assert!(has_tidy_layout(&raw));
    }
}

#[test]
fn streams_may_share_sectors_with_each_other_only() {
    let raw = sample(cfb::Version::V3);
    let large = entry(&raw, "large");
    let mut shared = raw.clone();
    set_u32(&mut shared, large + 116, u32_at(&raw, entry(&raw, "larger") + 116));
    assert!(!has_apart_layout(&shared));
    assert!(has_safe_layout(&shared));
    for at in [48, 60] {
        let mut shared = raw.clone();
        set_u32(&mut shared, large + 116, u32_at(&raw, at));
        assert!(!has_apart_layout(&shared));
        assert!(!has_safe_layout(&shared));
    }
    let mut shared = raw.clone();
    set_u32(&mut shared, large + 116, u32_at(&raw, entry(&raw, "Root Entry") + 116));
    assert!(!has_safe_layout(&shared));
    let mut unreadable = raw.clone();
    set_u32(&mut unreadable, large + 116, 0xffff_ffff);
    assert!(!has_apart_layout(&unreadable));
    assert!(has_safe_layout(&unreadable));
}

#[test]
fn streams_that_share_a_chain_are_not_apart() {
    let mut raw = sample(cfb::Version::V3);
    let large = entry(&raw, "large");
    let larger = entry(&raw, "larger");
    let start = u32_at(&raw, larger + 116);
    set_u32(&mut raw, large + 116, start);
    // The file is still accepted.
    assert!(cfb::CompoundFile::open_strict(Cursor::new(raw.clone())).is_ok());
    assert!(!has_apart_layout(&raw));
}

#[test]
fn small_streams_that_share_a_chain_are_not_apart() {
    let mut raw = sample(cfb::Version::V3);
    let small = entry(&raw, "small");
    let other = entry(&raw, "other");
    let start = u32_at(&raw, other + 116);
    set_u32(&mut raw, small + 116, start + 1);
    assert!(cfb::CompoundFile::open(Cursor::new(raw.clone())).is_ok());
    assert!(!has_apart_layout(&raw));
}

#[test]
fn stream_in_the_directory_is_not_apart() {
    let mut raw = sample(cfb::Version::V3);
    let large = entry(&raw, "large");
    let directory = u32_at(&raw, 48);
    set_u32(&mut raw, large + 116, directory);
    assert!(cfb::CompoundFile::open(Cursor::new(raw.clone())).is_ok());
    assert!(!has_apart_layout(&raw));
}

#[test]
fn stream_without_a_chain_is_not_apart() {
    for start in [0xffff_ffff, 0x00ff_ffff] {
        let mut raw = sample(cfb::Version::V3);
        let large = entry(&raw, "large");
        set_u32(&mut raw, large + 116, start);
        assert!(!has_apart_layout(&raw));
    }
}

#[test]
fn empty_stream_with_a_sector_is_not_tidy() {
    let mut raw = sample(cfb::Version::V3);
    assert!(has_tidy_layout(&raw));
    let empty = entry(&raw, "empty");
    set_u32(&mut raw, empty + 116, 0);
    assert!(!has_tidy_layout(&raw));
    assert!(has_apart_layout(&raw));
    assert!(has_safe_layout(&raw));
}

#[test]
fn table_of_sectors_may_be_listed_behind_the_header() {
    let mut file =
        cfb::CompoundFile::create_with_version(cfb::Version::V3, Cursor::new(Vec::new())).unwrap();
    write(&mut file, "/first", &[1; 100]);
    write(&mut file, "/large", &vec![2; 110 * 128 * 512]);
    write(&mut file, "/last", &[3; 5000]);
    file.flush().unwrap();
    let mut raw = file.into_inner().into_inner();
    assert_eq!(u32_at(&raw, 72), 1);
    assert!(has_apart_layout(&raw));
    let list = (u32_at(&raw, 68) as usize + 1) * 512;
    let sector = u32_at(&raw, list);
    set_u32(&mut raw, list, 0);
    assert!(!has_apart_layout(&raw));
    set_u32(&mut raw, list, sector);
    assert!(has_apart_layout(&raw));
    set_u32(&mut raw, list + 508, 0);
    assert!(!has_apart_layout(&raw));
}

#[test]
fn sector_of_the_table_that_is_listed_twice_is_not_apart() {
    let mut raw = sample(cfb::Version::V3);
    let first = u32_at(&raw, 76);
    assert_eq!(u32_at(&raw, 80), 0xffff_ffff);
    set_u32(&mut raw, 80, first);
    assert!(!has_apart_layout(&raw));
}

/// A file with sectors and small sectors that are free, in front of some that are not.
fn sample_with_gaps() -> Vec<u8> {
    let mut file =
        cfb::CompoundFile::create_with_version(cfb::Version::V3, Cursor::new(Vec::new())).unwrap();
    write(&mut file, "/gap", &[1; 5000]);
    write(&mut file, "/small gap", &[2; 1000]);
    write(&mut file, "/small", &[3; 200]);
    write(&mut file, "/large", &[4; 5000]);
    file.remove_stream("/gap").unwrap();
    file.remove_stream("/small gap").unwrap();
    file.flush().unwrap();
    file.into_inner().into_inner()
}

/// The positions of free entries in the table that is held by a sector, in front of one in use.
fn free_entries(raw: &[u8], sector: u32) -> Vec<usize> {
    let at = (sector as usize + 1) * 512;
    let last = (0..128).rev().find(|k| u32_at(raw, at + 4 * k) != 0xffff_ffff).unwrap();
    (0..last).filter(|k| u32_at(raw, at + 4 * k) == 0xffff_ffff).collect()
}

#[test]
fn sector_that_is_followed_by_a_free_one_gets_in_the_way() {
    let raw = sample_with_gaps();
    assert!(has_apart_layout(&raw));
    for at in [76, 60] {
        let sector = u32_at(&raw, at);
        let free = free_entries(&raw, sector);
        assert!(free.len() > 2);
        let mut damaged = raw.clone();
        let position = (sector as usize + 1) * 512 + 4 * free[0];
        set_u32(&mut damaged, position, free[2] as u32);
        // The file is still accepted, and nothing is shared.
        assert!(cfb::CompoundFile::open(Cursor::new(damaged.clone())).is_ok());
        assert!(!has_apart_layout(&damaged));
        assert!(has_safe_layout(&damaged));
        // Where the one that follows is in use, nothing is in the way.
        set_u32(&mut damaged, position + 4 * (free[2] - free[0]), 0xffff_fffe);
        assert!(cfb::CompoundFile::open(Cursor::new(damaged.clone())).is_ok());
        assert!(has_apart_layout(&damaged));
    }
}

#[test]
fn padding_of_a_table_that_is_needed_does_not_matter() {
    let raw = sample_with_gaps();
    let count = raw.len() / 512 - 1;
    // The table of sectors.
    let mut padded = raw.clone();
    let table = (u32_at(&raw, 76) as usize + 1) * 512;
    for k in count..128 {
        set_u32(&mut padded, table + 4 * k, 0);
    }
    assert!(cfb::CompoundFile::open(Cursor::new(padded.clone())).is_ok());
    assert!(has_apart_layout(&padded));
    // The table of small sectors.
    let mut padded = raw.clone();
    let small = (u32_at(&raw, 60) as usize + 1) * 512;
    set_u32(&mut padded, small + 4 * 100, 0);
    assert!(cfb::CompoundFile::open(Cursor::new(padded.clone())).is_ok());
    assert!(has_apart_layout(&padded));
}

#[test]
fn padding_of_a_table_that_is_not_needed_gets_in_the_way() {
    let raw = sample_with_gaps();
    let count = (raw.len() / 512 - 1) as u32;
    // A further sector of the table, of which only the padding is left.
    let mut padded = raw.clone();
    let table = (u32_at(&raw, 76) as usize + 1) * 512;
    set_u32(&mut padded, 80, count);
    set_u32(&mut padded, table + 4 * count as usize, 0xffff_fffd);
    padded.extend_from_slice(&[0; 512]);
    assert!(cfb::CompoundFile::open(Cursor::new(padded.clone())).is_ok());
    assert!(!has_apart_layout(&padded));
    assert!(has_safe_layout(&padded));
    let end = padded.len();
    padded[end - 512..].fill(0xff);
    assert!(has_apart_layout(&padded));
    // The list in the header.
    let mut padded = raw.clone();
    set_u32(&mut padded, 76 + 4 * 5, 0);
    assert!(cfb::CompoundFile::open(Cursor::new(padded.clone())).is_ok());
    assert!(!has_apart_layout(&padded));
    assert!(has_safe_layout(&padded));
}

#[test]
fn layout_is_known_after_a_change() {
    let raw = sample(cfb::Version::V3);
    let layout = find_layout(&raw);
    assert!(layout.safe && layout.apart && layout.tidy);
    assert_eq!((layout.length, layout.limit), (raw.len() as u64, 0xffff_ffff));
    assert_eq!(find_layout(&sample(cfb::Version::V4)).limit, 0xfff_ffff_b000);
    let after = find_layout_after(&layout, 1000);
    assert!(after.safe && after.apart && after.tidy);
    assert_eq!(after.length, raw.len() as u64 + 2000 + 0x1_0000);
    // Without room, or where streams are not apart, nothing is known of the sectors.
    let after = find_layout_after(&layout, 0x8000_0000);
    assert!(!after.safe && !after.apart && after.tidy);
    let after = find_layout_after(&Layout { apart: false, ..layout }, 1000);
    assert!(!after.safe && !after.apart && after.tidy);
}
