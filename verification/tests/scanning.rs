use wc::scanner::Scanner;
use wc::{count, Metrics, ScanError};

fn counts(m: &Metrics) -> (usize, usize, usize, usize, usize) {
    (m.lines, m.words, m.chars, m.bytes, m.max_line_length)
}

fn scan(content: &[u8]) -> Metrics {
    match count("f", content) {
        Ok(m) => m,
        Err(e) => panic!("counting failed: {:?}", e),
    }
}

fn offset_of(r: Result<Metrics, ScanError>) -> usize {
    match r {
        Err(ScanError::InvalidEncoding { path, offset }) => {
            assert_eq!(path, "f");
            offset
        }
        other => panic!("no encoding failure: {:?}", other),
    }
}

#[test]
fn empty_content_counts_nothing() {
    let m = scan(b"");
    assert_eq!(counts(&m), (0, 0, 0, 0, 0));
    assert_eq!(m.filename, "f");
}

#[test]
fn two_lines_three_words() {
    let m = scan(b"a b\nc\n");
    assert_eq!(m.lines, 2);
    assert_eq!(m.words, 3);
    assert_eq!(m.bytes, 6);
    assert_eq!(m.chars, 6);
    assert_eq!(m.max_line_length, 3);
}

#[test]
fn unterminated_line_is_not_counted_as_line() {
    let m = scan(b"a");
    assert_eq!(counts(&m), (0, 1, 1, 1, 1));
}

#[test]
fn unterminated_last_line_counts_for_width() {
    let m = scan(b"ab\ncdefg");
    assert_eq!(counts(&m), (1, 2, 8, 8, 5));
}

#[test]
fn tab_at_line_start_is_eight_columns() {
    let m = scan(b"\t");
    assert_eq!(counts(&m), (0, 0, 1, 1, 8));
}

#[test]
fn tab_adds_eight_columns_anywhere() {
    let m = scan(b"ab\tc\n\t\tx\n");
    assert_eq!(m.max_line_length, 17);
    assert_eq!(m.lines, 2);
    assert_eq!(m.words, 3);
}

#[test]
fn line_feed_has_no_width() {
    let m = scan(b"\n\n\n");
    assert_eq!(counts(&m), (3, 0, 3, 3, 0));
}

#[test]
fn carriage_return_is_one_column_and_separates() {
    let m = scan(b"ab\r\ncd\r\n");
    assert_eq!(counts(&m), (2, 2, 8, 8, 3));
}

#[test]
fn bytes_are_all_bytes_read() {
    let text = "h\u{e9}llo w\u{f6}rld \u{20ac} \u{1f600}\n";
    let m = scan(text.as_bytes());
    assert_eq!(m.bytes, text.len());
    assert_eq!(m.bytes, 23);
    assert_eq!(m.chars, 16);
    assert_eq!(m.words, 4);
    assert_eq!(m.lines, 1);
    assert_eq!(m.max_line_length, 15);
}

#[test]
fn ascii_has_as_many_chars_as_bytes() {
    let mut content = Vec::new();
    for b in 0u8..128 {
        content.push(b);
    }
    let m = scan(&content);
    assert_eq!(m.chars, m.bytes);
    assert_eq!(m.bytes, 128);
}

#[test]
fn byte_order_mark_is_content() {
    let m = scan(b"\xef\xbb\xbfa\n");
    assert_eq!(counts(&m), (1, 1, 3, 5, 2));
}

#[test]
fn unicode_separators_end_words() {
    let m = scan("a\u{a0}b\u{2003}c\u{3000}d\u{85}e\u{1680}f\u{2028}g".as_bytes());
    assert_eq!(m.words, 7);
    let m = scan("a\u{200b}b\u{feff}c\u{180e}d".as_bytes());
    assert_eq!(m.words, 1);
}

#[test]
fn words_and_lines_agree_with_std() {
    let samples = [
        "",
        " ",
        "one",
        " lead and trail ",
        "tabs\tand\nlines\r\n\n mixed \u{2009}thin\u{a0}nbsp",
        "\u{1f600}\u{1f600} \u{1f600}\n\u{e9}t\u{e9}",
        "a\u{b}b\u{c}c\u{1c}d\u{1f}e",
    ];
    for s in samples.iter() {
        let m = scan(s.as_bytes());
        assert_eq!(m.words, s.split_whitespace().count());
        assert_eq!(m.lines, s.matches('\n').count());
        assert_eq!(m.chars, s.chars().count());
        assert_eq!(m.bytes, s.len());
    }
}

#[test]
fn counting_twice_gives_the_same() {
    let content = "same \u{e9} content\nread twice\n".as_bytes();
    let first = scan(content);
    let second = scan(content);
    assert_eq!(counts(&first), counts(&second));
    assert_eq!(first.filename, second.filename);
    assert_eq!(offset_of(count("f", b"x\xfe")), offset_of(count("f", b"x\xfe")));
}

#[test]
fn stray_byte_stops_the_count() {
    assert_eq!(offset_of(count("f", b"ab\xffcd")), 2);
    assert_eq!(offset_of(count("f", b"\x80")), 0);
    assert_eq!(offset_of(count("f", b"a\xbf")), 1);
    assert_eq!(offset_of(count("f", b"abc\xf8\x88\x80\x80\x80")), 3);
}

#[test]
fn cut_off_scalar_stops_the_count() {
    assert_eq!(offset_of(count("f", b"\xe2\x82")), 0);
    assert_eq!(offset_of(count("f", b"ok\xf0\x9f\x98")), 2);
    assert_eq!(offset_of(count("f", b"\xe2\x82\xac\xc3")), 3);
}

#[test]
fn ill_formed_scalar_stops_the_count() {
    assert_eq!(offset_of(count("f", b"a\xc0\x80")), 1);
    assert_eq!(offset_of(count("f", b"\xe0\x80\x80")), 0);
    assert_eq!(offset_of(count("f", b"\xed\xa0\x80")), 0);
    assert_eq!(offset_of(count("f", b"\xf4\x90\x80\x80")), 0);
    assert_eq!(offset_of(count("f", b"\xf0\x80\x80\x80")), 0);
    assert_eq!(offset_of(count("f", b"xy\xe2\x28\xa1")), 2);
}

#[test]
fn boundary_scalars_are_read() {
    let m = scan("\u{7f}\u{80}\u{7ff}\u{800}\u{d7ff}\u{e000}\u{ffff}\u{10000}\u{10ffff}".as_bytes());
    assert_eq!(m.chars, 9);
    assert_eq!(m.bytes, 1 + 2 + 2 + 3 + 3 + 3 + 3 + 4 + 4);
}

fn outcome(r: Result<Metrics, ScanError>) -> Result<(usize, usize, usize, usize, usize), usize> {
    match r {
        Ok(m) => Ok(counts(&m)),
        Err(ScanError::InvalidEncoding { offset, .. }) => Err(offset),
        Err(other) => panic!("unexpected failure: {:?}", other),
    }
}

fn agrees_with_std(content: &[u8]) {
    let ours = outcome(count("f", content));
    match std::str::from_utf8(content) {
        Ok(s) => {
            let m = ours.unwrap();
            assert_eq!(m.0, s.matches('\n').count());
            assert_eq!(m.1, s.split_whitespace().count());
            assert_eq!(m.2, s.chars().count());
            assert_eq!(m.3, content.len());
        }
        Err(e) => assert_eq!(ours, Err(e.valid_up_to())),
    }
}

#[test]
fn every_pair_of_bytes_agrees_with_std() {
    for a in 0u16..256 {
        for b in 0u16..256 {
            agrees_with_std(&[a as u8, b as u8]);
        }
    }
}

#[test]
fn mixed_byte_strings_agree_with_std() {
    let interesting: [u8; 24] = [
        0x00, 0x0a, 0x20, 0x41, 0x7f, 0x80, 0x8f, 0x90, 0x9f, 0xa0, 0xbf, 0xc0, 0xc1, 0xc2, 0xdf,
        0xe0, 0xe1, 0xed, 0xef, 0xf0, 0xf1, 0xf4, 0xf5, 0xff,
    ];
    let n = interesting.len();
    for a in 0..n {
        for b in 0..n {
            for c in 0..n {
                for d in 0..n {
                    agrees_with_std(&[
                        interesting[a],
                        interesting[b],
                        interesting[c],
                        interesting[d],
                    ]);
                }
            }
        }
    }
}

fn feed_in_pieces(content: &[u8], size: usize) -> Result<Metrics, ScanError> {
    let mut scanner = Scanner::new("f");
    for piece in content.chunks(size) {
        assert!(piece.len() <= scanner.room());
        let _ = scanner.feed(piece);
    }
    scanner.finish()
}

#[test]
fn pieces_of_any_size_give_the_same_counts() {
    let text = "caf\u{e9} \u{20ac}5\tna\u{ef}ve\n\u{1f600} end \u{3000}x";
    let whole = outcome(count("f", text.as_bytes()));
    assert!(whole.is_ok());
    for size in 1..text.len() + 1 {
        assert_eq!(outcome(feed_in_pieces(text.as_bytes(), size)), whole);
    }
}

#[test]
fn a_cut_at_any_place_gives_the_same_counts() {
    let text = "\u{1f600}a\u{e9}\n\u{20ac} b\t\u{10ffff}";
    let bytes = text.as_bytes();
    let whole = outcome(count("f", bytes));
    for cut in 0..bytes.len() + 1 {
        let mut scanner = Scanner::new("f");
        assert!(scanner.feed(&bytes[..cut]).is_ok());
        assert!(scanner.feed(&bytes[cut..]).is_ok());
        assert_eq!(outcome(scanner.finish()), whole);
    }
}

#[test]
fn pieces_of_broken_content_fail_at_the_same_offset() {
    let content = b"good \xe2\x82\xac then \xe2\x82 bad";
    let whole = outcome(count("f", content));
    assert_eq!(whole, Err(14));
    for size in 1..content.len() + 1 {
        assert_eq!(outcome(feed_in_pieces(content, size)), whole);
    }
}

#[test]
fn feed_fails_once_no_more_bytes_can_help() {
    let mut scanner = Scanner::new("f");
    assert!(scanner.feed(b"ab").is_ok());
    assert!(scanner.feed(b"\xe2").is_ok());
    assert!(scanner.feed(b"\x82").is_ok());
    match scanner.feed(b"\x41") {
        Err(ScanError::InvalidEncoding { path, offset }) => {
            assert_eq!(path, "f");
            assert_eq!(offset, 2);
        }
        other => panic!("no failure: {:?}", other),
    }
    assert!(scanner.feed(b"more").is_err());
    assert_eq!(outcome(scanner.finish()), Err(2));
}

#[test]
fn feed_fails_at_once_on_a_byte_that_starts_nothing() {
    let mut scanner = Scanner::new("f");
    assert!(scanner.feed(b"abc\xff").is_err());
    assert_eq!(outcome(scanner.finish()), Err(3));
}

#[test]
fn room_shrinks_by_what_was_fed() {
    let mut scanner = Scanner::new("f");
    let before = scanner.room();
    assert_eq!(before, usize::MAX / 8);
    assert!(scanner.feed(b"12345").is_ok());
    assert_eq!(scanner.room(), before - 5);
}

#[test]
fn scanner_keeps_the_name() {
    let scanner = Scanner::new("some/path.txt");
    match scanner.finish() {
        Ok(m) => assert_eq!(m.filename, "some/path.txt"),
        Err(e) => panic!("counting failed: {:?}", e),
    }
}
