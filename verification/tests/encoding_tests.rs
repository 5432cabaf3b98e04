use fixsrt::encoding::{
    decode_windows_1252, subtitles_from_bytes, subtitles_to_bytes, text_of_bytes, BOM,
    W1252_80_9F,
};
use fixsrt::srt::{parse_srt, Subtitle};

fn sub(num: u32, from: i32, to: i32, texts: &[&str]) -> Subtitle {
    Subtitle {
        num,
        time_from: from,
        time_to: to,
        texts: texts.iter().map(|t| t.to_string()).collect(),
    }
}

#[test]
fn windows_1252_maps_every_byte() {
    assert_eq!(decode_windows_1252(&[]), "");
    assert_eq!(decode_windows_1252(&[0x00, 0x41, 0x7f]), "\u{0}A\u{7f}");
    assert_eq!(decode_windows_1252(&[0x80, 0x93, 0x94]), "€“”");
    assert_eq!(decode_windows_1252(&[0x8c, 0x9c, 0x9f]), "ŒœŸ");
    assert_eq!(decode_windows_1252(&[0x81, 0x8d, 0x8f, 0x90, 0x9d]), "\u{81}\u{8d}\u{8f}\u{90}\u{9d}");
    assert_eq!(decode_windows_1252(&[0xa0, 0xe9, 0xff]), "\u{a0}éÿ");
    assert_eq!(W1252_80_9F.len(), 32);
    let all: Vec<u8> = (0..=255).collect();
    let text: Vec<char> = decode_windows_1252(&all).chars().collect();
    assert_eq!(text.len(), 256);
    for b in 0..256usize {
        if (0x80..=0x9f).contains(&b) {
            assert_eq!(text[b], W1252_80_9F[b - 0x80]);
        } else {
            assert_eq!(text[b] as u32, b as u32);
        }
    }
}

#[test]
fn text_behind_a_mark_has_to_be_utf8() {
    assert_eq!(BOM, [0xEF, 0xBB, 0xBF]);
    assert_eq!(text_of_bytes(&[0xEF, 0xBB, 0xBF]), Some(String::new()));
    assert_eq!(
        text_of_bytes(&[0xEF, 0xBB, 0xBF, b'a', 0xc3, 0xa9]),
        Some("aé".to_string())
    );
    assert_eq!(text_of_bytes(&[0xEF, 0xBB, 0xBF, b'a', 0xe9]), None);
    assert_eq!(text_of_bytes(&[0xEF, 0xBB, 0xBF, 0xc3]), None);
}

#[test]
fn text_without_a_mark_is_utf8_or_windows_1252() {
    assert_eq!(text_of_bytes(&[]), Some(String::new()));
    assert_eq!(text_of_bytes(b"plain"), Some("plain".to_string()));
    assert_eq!(
        text_of_bytes("déjà bœuf 3€ 😀".as_bytes()),
        Some("déjà bœuf 3€ 😀".to_string())
    );
    assert_eq!(
        text_of_bytes(&[0x64, 0xe9, 0x6a, 0xe0, 0x20, 0x62, 0x9c, 0x75, 0x66, 0x20, 0x33, 0x80]),
        Some("déjà bœuf 3€".to_string())
    );
    // Part of a mark is no mark.
    assert_eq!(text_of_bytes(&[0xEF, 0xBB]), Some("ï»".to_string()));
    // Overlong forms, surrogates and what lies beyond the last character are
    // no UTF-8.
    assert_eq!(text_of_bytes(&[0xc0, 0x80]), Some("À€".to_string()));
    assert_eq!(text_of_bytes(&[0xed, 0xa0, 0x80]), Some("í\u{a0}€".to_string()));
    assert_eq!(
        text_of_bytes(&[0xf4, 0x90, 0x80, 0x80]),
        Some("ô\u{90}€€".to_string())
    );
    assert_eq!(text_of_bytes(&[0xf4, 0x8f, 0xbf, 0xbf]), Some("\u{10ffff}".to_string()));
}

#[test]
fn subtitles_are_read_from_bytes() {
    let mut bytes = vec![0xEF, 0xBB, 0xBF];
    bytes.extend_from_slice("1\r\n0 --> 1\r\nCa va, déjà?\r\n".as_bytes());
    assert_eq!(
        subtitles_from_bytes(&bytes),
        Ok(vec![sub(1, 0, 1000, &["Ca va, déjà?"])])
    );
    assert_eq!(
        subtitles_from_bytes(&bytes[3..]),
        Ok(vec![sub(1, 0, 1000, &["Ca va, déjà?"])])
    );
    let latin: Vec<u8> = b"1\n0 --> 1\nd\xe9j\xe0 b\x9cuf\n".to_vec();
    assert_eq!(
        subtitles_from_bytes(&latin),
        Ok(vec![sub(1, 0, 1000, &["déjà bœuf"])])
    );
    assert_eq!(subtitles_from_bytes(&[]), Ok(vec![]));
}

#[test]
fn what_is_wrong_with_the_bytes_comes_back_as_a_message() {
    assert_eq!(
        subtitles_from_bytes(&[0xEF, 0xBB, 0xBF, b'1', 0xff]),
        Err("Invalid UTF-8".to_string())
    );
    assert_eq!(
        subtitles_from_bytes(b"1\nnothing\n"),
        Err("Bad duration separator at line 2: nothing".to_string())
    );
    // A mark that was decoded with the text is no number.
    assert_eq!(
        subtitles_from_bytes(b"x\n"),
        Err("Bad number at line 1: invalid digit found in string: 'x'".to_string())
    );
}

#[test]
fn subtitles_are_written_as_bytes_behind_a_mark() {
    assert_eq!(subtitles_to_bytes(&vec![]), vec![0xEF, 0xBB, 0xBF]);
    let subs = vec![sub(1, 0, 1000, &["déjà"]), sub(2, 1000, 2000, &["€"])];
    let mut expected = vec![0xEF, 0xBB, 0xBF];
    expected.extend_from_slice(
        "1\r\n00:00:00,000 --> 00:00:01,000\r\ndéjà\r\n\r\n2\r\n00:00:01,000 --> 00:00:02,000\r\n€\r\n\r\n"
            .as_bytes(),
    );
    assert_eq!(subtitles_to_bytes(&subs), expected);
}

#[test]
fn what_is_written_to_a_file_is_read_back() {
    let text = "42\n00:00:16,087 --> 00:00:19,911\n\nsuspicious empty line above\n\n43\n00:00:20,000 --> 00:00:21,000\nmango, déjà 😀\n\n44\n1 --> 2\n\n45\n2 --> 3\nfin";
    let subs = parse_srt(text).unwrap();
    assert_eq!(subs.len(), 4);
    assert_eq!(subtitles_from_bytes(&subtitles_to_bytes(&subs)), Ok(subs));
}
