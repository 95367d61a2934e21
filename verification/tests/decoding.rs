use wc::decoding::{decode_scalar, leading_width};
use wc::text::code_is_whitespace;
use wc::is_whitespace;

#[test]
fn whitespace_agrees_with_std_on_every_char() {
    for code in 0u32..0x110000 {
        if let Some(c) = char::from_u32(code) {
            assert_eq!(is_whitespace(c), c.is_whitespace());
            assert_eq!(code_is_whitespace(code), c.is_whitespace());
        }
    }
}

#[test]
fn whitespace_examples() {
    assert!(is_whitespace(' '));
    assert!(is_whitespace('\n'));
    assert!(is_whitespace('\t'));
    assert!(is_whitespace('\u{a0}'));
    assert!(is_whitespace('\u{3000}'));
    assert!(!is_whitespace('a'));
    assert!(!is_whitespace('\u{200b}'));
    assert!(!is_whitespace('\u{0}'));
}

#[test]
fn leading_width_of_every_byte() {
    for b in 0u16..256 {
        let b = b as u8;
        let expected = if b < 0x80 {
            1
        } else if b < 0xc0 {
            0
        } else if b < 0xe0 {
            2
        } else if b < 0xf0 {
            3
        } else if b < 0xf8 {
            4
        } else {
            0
        };
        assert_eq!(leading_width(b), expected);
    }
}

#[test]
fn every_char_decodes_to_itself() {
    let mut buf = [0u8; 4];
    for code in 0u32..0x110000 {
        if let Some(c) = char::from_u32(code) {
            let bytes = c.encode_utf8(&mut buf).as_bytes();
            assert_eq!(leading_width(bytes[0]), bytes.len());
            assert_eq!(decode_scalar(bytes), Some(code));
        }
    }
}

#[test]
fn ill_formed_units_do_not_decode() {
    assert_eq!(decode_scalar(b"\xc0\x80"), None);
    assert_eq!(decode_scalar(b"\xc1\xbf"), None);
    assert_eq!(decode_scalar(b"\xc2\x41"), None);
    assert_eq!(decode_scalar(b"\xe0\x9f\xbf"), None);
    assert_eq!(decode_scalar(b"\xed\xa0\x80"), None);
    assert_eq!(decode_scalar(b"\xed\xbf\xbf"), None);
    assert_eq!(decode_scalar(b"\xe2\x82\x41"), None);
    assert_eq!(decode_scalar(b"\xf0\x8f\xbf\xbf"), None);
    assert_eq!(decode_scalar(b"\xf4\x90\x80\x80"), None);
    assert_eq!(decode_scalar(b"\xf7\xbf\xbf\xbf"), None);
    assert_eq!(decode_scalar(b"\xf0\x9f\x98\x41"), None);
}

#[test]
fn well_formed_units_decode() {
    assert_eq!(decode_scalar(b"A"), Some(0x41));
    assert_eq!(decode_scalar(b"\xc3\xa9"), Some(0xe9));
    assert_eq!(decode_scalar(b"\xe2\x82\xac"), Some(0x20ac));
    assert_eq!(decode_scalar(b"\xf0\x9f\x98\x80"), Some(0x1f600));
    assert_eq!(decode_scalar(b"\xf4\x8f\xbf\xbf"), Some(0x10ffff));
}

#[test]
fn every_three_byte_unit_agrees_with_std() {
    for a in 0xe0u16..0xf0 {
        for b in 0u16..256 {
            for c in 0u16..256 {
                let unit = [a as u8, b as u8, c as u8];
                let expected = match std::str::from_utf8(&unit) {
                    Ok(s) => s.chars().next().map(|ch| ch as u32),
                    Err(_) => None,
                };
                assert_eq!(decode_scalar(&unit), expected);
            }
        }
    }
}
