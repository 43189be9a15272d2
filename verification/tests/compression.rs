use ovba::compression::compress;
use ovba::decompression::{
    chunk_parser, compressed_chunk_parser, copy_length_span, decompress, try_decompress,
    uncompressed_chunk_parser,
};
use ovba::format::{ErrorKind, FormatError};
use ovba::matching::find_longest_match;

/// The container with a single compressed chunk.
fn container(data: &[u8]) -> Vec<u8> {
    let header = 0xb000 + (data.len() as u16 - 1);
    let mut container = vec![1, (header % 0x100) as u8, (header / 0x100) as u8];
    container.extend_from_slice(data);
    container
}

fn compressed(input: &[u8]) -> Vec<u8> {
    compress(input).unwrap()
}

fn decompressed(input: &[u8]) -> Vec<u8> {
    let (rest, output) = decompress(input).unwrap();
    assert!(rest.is_empty());
    output
}

#[test]
fn longest_match_prefers_length_then_nearness() {
    // Both earlier occurrences of "abc" match three bytes; the nearer one is taken.
    assert_eq!(find_longest_match(b"abcXabcYabc", 8, 3, 18, 4096), (3, 4));
    // A longer match wins over a nearer one.
    assert_eq!(find_longest_match(b"abcdXabcYabcd", 9, 3, 18, 4096), (4, 9));
}

#[test]
fn longest_match_may_overlap() {
    assert_eq!(find_longest_match(b"aaaaaaaa", 1, 3, 18, 4096), (7, 1));
}

#[test]
fn longest_match_obeys_limits() {
    assert_eq!(find_longest_match(b"aaaaaaaa", 1, 3, 5, 4096), (5, 1));
    assert_eq!(find_longest_match(b"abcXabc", 4, 3, 18, 3), (0, 0));
    assert_eq!(find_longest_match(b"abcXabc", 4, 4, 18, 4096), (0, 0));
    assert_eq!(find_longest_match(b"abcXabc", 4, 3, 2, 4096), (0, 0));
}

#[test]
fn longest_match_needs_history_and_room() {
    assert_eq!(find_longest_match(b"aaaa", 0, 3, 18, 4096), (0, 0));
    assert_eq!(find_longest_match(b"aaaa", 2, 3, 18, 4096), (0, 0));
    assert_eq!(find_longest_match(b"aaaa", 9, 3, 18, 4096), (0, 0));
    assert_eq!(find_longest_match(b"aaaa", usize::MAX, 3, 18, 4096), (0, 0));
    assert_eq!(find_longest_match(b"", 0, 0, 0, 0), (0, 0));
}

#[test]
fn compress_nothing() {
    assert_eq!(compressed(b""), b"");
}

#[test]
fn compress_literals() {
    assert_eq!(compressed(b"A"), b"\x00A");
    assert_eq!(compressed(b"abcdefghij"), b"\x00abcdefgh\x00ij");
}

#[test]
fn compress_repetition() {
    // One literal, then copy tokens of 18 bytes while there are enough.
    assert_eq!(compressed(&[b'a'; 8]), b"\x02a\x04\x00");
    assert_eq!(compressed(&[b'a'; 21]), b"\x02a\x0f\x00aa");
}

#[test]
fn compress_writes_offset_and_length() {
    // "abc" at position 4 is copied from four places before it: (4 - 1) * 0x1000 + (3 - 3).
    assert_eq!(compressed(b"abcXabc"), b"\x10abcX\x00\x30");
}

#[test]
fn compress_waits_for_a_longer_match() {
    // At position 8 "abX" is a match of three bytes, but at position 9 "bXYZ" is one of four.
    let input = b"abX_bXYZabXYZ";
    let (here, _) = find_longest_match(input, 8, 3, 18, 4096);
    let (next, _) = find_longest_match(input, 9, 3, 18, 4096);
    assert_eq!((here, next), (3, 4));
    assert_eq!(compressed(input), b"\x00abX_bXYZ\x02a\x01\x40");
    assert_eq!(decompressed(&container(&compressed(input))), input);
}

#[test]
fn decompress_documented_example() {
    let input = [
        0x01, 0x2f, 0xb0, 0x00, 0x23, 0x61, 0x61, 0x61, 0x62, 0x63, 0x64, 0x65, 0x82, 0x66, 0x00,
        0x70, 0x61, 0x67, 0x68, 0x69, 0x6a, 0x01, 0x38, 0x08, 0x61, 0x6b, 0x6c, 0x00, 0x30, 0x6d,
        0x6e, 0x6f, 0x70, 0x06, 0x71, 0x02, 0x70, 0x04, 0x10, 0x72, 0x73, 0x74, 0x75, 0x76, 0x10,
        0x77, 0x78, 0x79, 0x7a, 0x00, 0x3c,
    ];
    assert_eq!(
        decompressed(&input),
        b"#aaabcdefaaaaghijaaaaaklaaamnopqaaaaaaaaaaaarstuvwxyzaaa"
    );
}

#[test]
fn decompress_literals_only() {
    let mut input = vec![0x01, 0x19, 0xb0];
    input.extend_from_slice(b"\x00abcdefgh\x00ijklmnop\x00qrstuv.");
    assert_eq!(decompressed(&input), b"abcdefghijklmnopqrstuv.");
}

#[test]
fn decompress_longest_copy() {
    assert_eq!(
        decompressed(&[0x01, 0x03, 0xb0, 0x02, 0x61, 0x45, 0x00]),
        vec![b'a'; 73]
    );
}

#[test]
fn decompress_stored_chunk() {
    assert_eq!(decompressed(b"\x01\x02\x30abc"), b"abc");
    assert_eq!(
        uncompressed_chunk_parser(b"abc"),
        Ok((&b""[..], b"abc".to_vec()))
    );
}

#[test]
fn decompress_joins_chunks() {
    let mut input = container(&compressed(b"first"));
    input.extend_from_slice(&container(&compressed(b"second"))[1..]);
    input.extend_from_slice(b"\x02\x30end");
    assert_eq!(decompressed(&input), b"firstsecondend");
}

#[test]
fn decompress_needs_signature() {
    assert_eq!(
        decompress(b"").unwrap_err(),
        FormatError::Syntax(&b""[..], ErrorKind::Tag)
    );
    assert_eq!(
        decompress(b"\x02\x00").unwrap_err(),
        FormatError::Syntax(&b"\x02\x00"[..], ErrorKind::Tag)
    );
}

#[test]
fn decompress_needs_a_chunk() {
    assert_eq!(
        decompress(b"\x01").unwrap_err(),
        FormatError::Syntax(&b""[..], ErrorKind::Many1)
    );
    // The three bits behind the size have to be 0b011.
    assert_eq!(
        decompress(b"\x01\x02\xa0abc").unwrap_err(),
        FormatError::Syntax(&b"\x02\xa0abc"[..], ErrorKind::Many1)
    );
}

#[test]
fn decompress_consumes_everything() {
    assert_eq!(
        decompress(b"\x01\x02\x30abc\x00").unwrap_err(),
        FormatError::Syntax(&b"\x00"[..], ErrorKind::Eof)
    );
}

#[test]
fn decompress_has_no_answer_for_a_chunk_that_is_cut_off() {
    assert_eq!(try_decompress(b"\x01\x03\x30abc"), None);
    assert_eq!(chunk_parser(b"\x03\x30abc"), None);
}

#[test]
fn chunk_header_is_checked() {
    assert_eq!(
        chunk_parser(b"\x00"),
        Some(Err(FormatError::Syntax(&b"\x00"[..], ErrorKind::Eof)))
    );
    assert_eq!(
        chunk_parser(b"\x00\x00a"),
        Some(Err(FormatError::UnexpectedValue))
    );
    assert_eq!(
        chunk_parser(b"\x00\x30ab"),
        Some(Ok((&b"b"[..], b"a".to_vec())))
    );
}

#[test]
fn copy_token_is_checked() {
    // A copy token takes two bytes.
    assert_eq!(
        compressed_chunk_parser(b"\x02a\x00"),
        Some(Err(FormatError::Syntax(&b"\x00"[..], ErrorKind::Eof)))
    );
    // It cannot refer to bytes in front of the chunk.
    assert_eq!(
        compressed_chunk_parser(b"\x02a\x00\x10"),
        Some(Err(FormatError::Syntax(&b"\x00\x10"[..], ErrorKind::Verify)))
    );
    assert_eq!(
        compressed_chunk_parser(b"\x01\x00\x00"),
        Some(Err(FormatError::Syntax(&b"\x00\x00"[..], ErrorKind::Verify)))
    );
    // A flag byte without tokens is accepted.
    assert_eq!(compressed_chunk_parser(b"\x00"), Some(Ok((&b""[..], vec![]))));
}

#[test]
fn copy_token_behind_too_many_bytes_has_no_answer() {
    // Each copy token here stands for as many bytes as its twelve or fewer bits can say.
    let mut input = vec![0xfe, b'a'];
    let mut produced: usize = 1;
    let mut tokens = 1;
    while produced <= 0x8000 {
        if tokens % 8 == 0 {
            input.push(0xff);
        }
        let length = copy_length_span(produced) - 1;
        input.extend_from_slice(&length.to_le_bytes());
        produced += length as usize + 3;
        tokens += 1;
    }
    match compressed_chunk_parser(&input) {
        Some(Ok((_, output))) => assert_eq!(output, vec![b'a'; produced]),
        other => panic!("{:?}", other),
    }
    if tokens % 8 == 0 {
        input.push(0xff);
    }
    input.extend_from_slice(&[0, 0]);
    assert_eq!(compressed_chunk_parser(&input), None);
}

#[test]
fn length_bits_shrink_with_the_history() {
    let spans = [
        (0, 0x1000),
        (16, 0x1000),
        (17, 0x800),
        (32, 0x800),
        (33, 0x400),
        (65, 0x200),
        (129, 0x100),
        (257, 0x80),
        (513, 0x40),
        (1025, 0x20),
        (2049, 0x10),
        (4096, 0x10),
        (4097, 8),
        (8193, 4),
        (16385, 2),
        (32768, 2),
    ];
    for (produced, span) in spans {
        assert_eq!(copy_length_span(produced), span, "behind {} bytes", produced);
    }
}

#[test]
fn short_data_is_read_back() {
    let mut state: u32 = 1;
    for length in (1..4096).step_by(97).chain([4096]) {
        for letters in [1u32, 2, 3, 26] {
            let input: Vec<u8> = (0..length)
                .map(|_| {
                    state = state.wrapping_mul(1103515245).wrapping_add(12345);
                    b'a' + ((state >> 16) % letters) as u8
                })
                .collect();
            let data = compressed(&input);
            match compressed_chunk_parser(&data) {
                Some(Ok((rest, output))) => assert_eq!((rest, output), (&b""[..], input.clone())),
                other => panic!("{:?}", other),
            }
            if data.len() <= 4096 {
                assert_eq!(decompressed(&container(&data)), input);
            }
        }
    }
}

#[test]
fn long_matches_behind_a_full_chunk_are_read_back() {
    // Behind 4096 bytes fewer than four bits are left for a length.
    for length in [4095, 4096, 4097, 4110, 8000, 8192, 8193, 16384, 16400, 32767, 32768] {
        let input = vec![b'a'; length];
        let data = compressed(&input);
        assert!(data.len() <= 4096 || length > 8193);
        match compressed_chunk_parser(&data) {
            Some(Ok((rest, output))) => assert_eq!((rest, output), (&b""[..], input)),
            other => panic!("{:?}", other),
        }
    }
}

#[test]
fn matches_behind_a_full_chunk_have_three_bits_for_their_length() {
    // A literal and 228 copy tokens for 18 bytes each, then copy tokens for 10 bytes each.
    let data = compressed(&[b'a'; 1 + 18 * 228 + 20]);
    assert_eq!(data[data.len() - 4..], [0x07, 0x00, 0x07, 0x00]);
}

#[test]
fn long_data_with_short_matches_is_read_back() {
    let mut state: u32 = 7;
    let input: Vec<u8> = (0..6000)
        .map(|_| {
            state = state.wrapping_mul(1103515245).wrapping_add(12345);
            (state >> 16) as u8
        })
        .collect();
    match compressed_chunk_parser(&compressed(&input)) {
        Some(Ok((rest, output))) => assert_eq!((rest, output), (&b""[..], input.clone())),
        other => panic!("{:?}", other),
    }
}

#[test]
fn very_long_data_is_read_back() {
    // Behind 0x8000 bytes no bits are left for a length at all.
    let input = vec![b'a'; 40000];
    let data = compressed(&input);
    assert_eq!(data[data.len() - 2..], [b'a', b'a']);
    match compressed_chunk_parser(&data) {
        Some(Ok((rest, output))) => assert_eq!((rest, output), (&b""[..], input)),
        other => panic!("{:?}", other),
    }
}
