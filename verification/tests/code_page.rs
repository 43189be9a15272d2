use ovba::code_page::{cp_to_string, is_readable, string_to_cp, try_string_to_cp};

#[test]
fn code_pages_with_an_encoding_are_known() {
    for code_page in 0..=u16::MAX {
        assert_eq!(
            is_readable(code_page, b""),
            codepage::to_encoding(code_page).is_some(),
            "code page {}",
            code_page
        );
    }
}

#[test]
fn code_pages_that_agree_with_ascii() {
    let ascii: Vec<u8> = (0..0x80).collect();
    let text: String = ascii.iter().map(|&byte| byte as char).collect();
    for code_page in 0..=u16::MAX {
        if let Some(encoding) = codepage::to_encoding(code_page) {
            if encoding.is_ascii_compatible() {
                assert_eq!(cp_to_string(&ascii, code_page), text, "code page {}", code_page);
                assert_eq!(string_to_cp(&text, code_page), ascii, "code page {}", code_page);
            }
        }
    }
}

#[test]
fn text_is_read_in_its_code_page() {
    assert_eq!(cp_to_string(b"\x80\xe4", 1252), "\u{20ac}\u{e4}");
    assert_eq!(
        cp_to_string(b"\xcf\xf0\xe8\xe2\xe5\xf2", 1251),
        "\u{41f}\u{440}\u{438}\u{432}\u{435}\u{442}"
    );
    assert_eq!(cp_to_string(b"\x82\xa0", 932), "\u{3042}");
    assert_eq!(cp_to_string("\u{20ac}x".as_bytes(), 65001), "\u{20ac}x");
    assert_eq!(cp_to_string(b"A\x00B\x00", 1200), "AB");
    assert_eq!(cp_to_string(b"", 1252), "");
}

#[test]
fn malformed_text_is_replaced() {
    assert_eq!(cp_to_string(b"a\xffb", 65001), "a\u{fffd}b");
    assert_eq!(cp_to_string(b"anything", 50225), "\u{fffd}");
}

#[test]
fn byte_order_marks_are_kept() {
    assert_eq!(cp_to_string(b"\xef\xbb\xbfa", 65001), "\u{feff}a");
}

#[test]
fn text_is_written_in_its_code_page() {
    assert_eq!(string_to_cp("\u{20ac}\u{e4}", 1252), b"\x80\xe4");
    assert_eq!(string_to_cp("\u{3042}", 932), b"\x82\xa0");
    assert_eq!(string_to_cp("\u{20ac}x", 65001), "\u{20ac}x".as_bytes());
    assert_eq!(string_to_cp("", 1252), b"");
}

#[test]
fn utf_16_is_written_as_utf_8() {
    assert_eq!(string_to_cp("A\u{e4}", 1200), "A\u{e4}".as_bytes());
    assert_eq!(string_to_cp("A\u{e4}", 50225), "A\u{e4}".as_bytes());
}

#[test]
fn characters_that_a_code_page_lacks_cannot_be_written() {
    assert_eq!(try_string_to_cp("\u{44f}", 1252), None);
    assert_eq!(try_string_to_cp("\u{3042}", 1252), None);
    assert_eq!(try_string_to_cp("a\u{3042}b", 1252), None);
    assert_eq!(try_string_to_cp("\u{1f600}", 932), None);
    assert_eq!(try_string_to_cp(&"\u{3042}".repeat(100), 1252), None);
    assert_eq!(try_string_to_cp("\u{1f600}", 65001), Some("\u{1f600}".as_bytes().to_vec()));
}

#[test]
fn unknown_code_page_cannot_be_written() {
    assert_eq!(try_string_to_cp("a", 1), None);
    assert_eq!(try_string_to_cp("a", 0), None);
}

#[test]
fn text_is_read_back() {
    let utf_8 = "Sub \u{dc}bung()\n' \u{43f}\u{440}\u{43e}\u{432}\u{435}\u{440}\u{43a}\u{430}\n";
    assert_eq!(cp_to_string(&string_to_cp(utf_8, 65001), 65001), utf_8);
    let ascii = "Sub Test()\r\nEnd Sub\r\n";
    assert_eq!(cp_to_string(&string_to_cp(ascii, 932), 932), ascii);
    // Not so in UTF-16, which is never written.
    assert_ne!(cp_to_string(&string_to_cp(ascii, 1200), 1200), ascii);
}

#[test]
fn text_of_any_length_finds_room() {
    for code_page in 0..=u16::MAX {
        let Some(encoding) = codepage::to_encoding(code_page) else {
            continue;
        };
        for length in 0..70 {
            let text: String = (0..length).map(|k| (b' ' + k) as char).collect();
            if encoding.is_ascii_compatible() {
                assert_eq!(string_to_cp(&text, code_page), text.as_bytes());
                assert_eq!(cp_to_string(text.as_bytes(), code_page), text);
            } else {
                assert!(try_string_to_cp(&text, code_page).is_some());
            }
        }
    }
}

#[test]
fn any_bytes_can_be_read() {
    let mut state: u32 = 3;
    for code_page in 0..=u16::MAX {
        let Some(encoding) = codepage::to_encoding(code_page) else {
            continue;
        };
        for length in 0..40 {
            let data: Vec<u8> = (0..length)
                .map(|_| {
                    state = state.wrapping_mul(1103515245).wrapping_add(12345);
                    (state >> 16) as u8
                })
                .collect();
            let (text, _) = encoding.decode_without_bom_handling(&data);
            assert_eq!(cp_to_string(&data, code_page), text, "code page {}", code_page);
        }
    }
}

#[test]
fn characters_with_one_byte_are_read_back() {
    let mut code_pages = 0;
    for code_page in 0..=u16::MAX {
        match codepage::to_encoding(code_page) {
            Some(encoding) if encoding.is_single_byte() => {}
            _ => continue,
        }
        code_pages += 1;
        let mut characters = String::new();
        for c in (0..=u16::MAX).filter_map(|unit| char::from_u32(unit as u32)) {
            let mut buffer = [0; 4];
            let text: &str = c.encode_utf8(&mut buffer);
            if let Some(data) = try_string_to_cp(text, code_page) {
                assert_eq!(data.len(), 1);
                assert_eq!(cp_to_string(&data, code_page), text, "code page {}", code_page);
                characters.push(c);
            }
        }
        let data = string_to_cp(&characters, code_page);
        assert!(data.len() > 0x80);
        assert_eq!(cp_to_string(&data, code_page), characters, "code page {}", code_page);
    }
    assert_eq!(code_pages, 32);
}
