use portcall::lines::{trim_line_end, RxLines};
use portcall::rx_screen::{write_status, RxReaction, RxScreen};
use portcall::input::{Chord, Key};

fn lines_of(chunks: &[&[u8]]) -> Vec<String> {
    let mut rx = RxLines::default();
    for chunk in chunks {
        rx.feed(chunk);
    }
    (0..rx.line_count()).map(|i| rx.line(i).unwrap()).collect()
}

/// Cut, decoded and trimmed with the standard library.
fn expected(bytes: &[u8]) -> Vec<String> {
    let mut out = Vec::new();
    let mut rest = bytes.to_vec();
    while let Some(nl) = rest.iter().position(|&b| b == b'\n') {
        let line: Vec<u8> = rest.drain(..=nl).collect();
        let text = String::from_utf8_lossy(&line);
        out.push(text.trim_end_matches(['\n', '\r']).to_string());
    }
    out
}

#[test]
fn line_ends_are_trimmed() {
    assert_eq!(trim_line_end("abc\r\n"), "abc");
    assert_eq!(trim_line_end("abc\n\r\r\n"), "abc");
    assert_eq!(trim_line_end("a\rb\n"), "a\rb");
    assert_eq!(trim_line_end("abc "), "abc ");
    assert_eq!(trim_line_end("\r\n"), "");
    assert_eq!(trim_line_end(""), "");
}

#[test]
fn lines_wait_for_their_newline() {
    let mut rx = RxLines::default();
    rx.feed(b"hel");
    assert_eq!(rx.line_count(), 0);
    rx.feed(b"lo\r\nwor");
    assert_eq!(rx.line_count(), 1);
    assert_eq!(rx.line(0), Some("hello".to_string()));
    assert_eq!(rx.line(1), None);
    rx.feed(b"ld\n\n");
    assert_eq!(rx.line(1), Some("world".to_string()));
    assert_eq!(rx.line(2), Some(String::new()));
    assert_eq!(rx.line_count(), 3);
}

#[test]
fn lossy_decoding_of_bytes_that_are_not_utf8() {
    assert_eq!(lines_of(&[b"a\xFFb\n"]), vec!["a\u{FFFD}b"]);
    assert_eq!(lines_of(&[b"\xE2\x82\n"]), vec!["\u{FFFD}"]);
    assert_eq!(lines_of(&["größe €\n".as_bytes()]), vec!["größe €"]);
}

#[test]
fn chunks_make_no_difference() {
    let bytes = "temp: 21°\r\n\nκόσμε\n\u{1F980} crab\r\r\n".as_bytes().to_vec();
    let mut stream = bytes.clone();
    stream.extend_from_slice(b"\xFF\xFE broken \xC3\n tail");
    let whole = expected(&stream);
    assert_eq!(whole.len(), 5);
    assert_eq!(lines_of(&[&stream]), whole);
    for size in 1..=stream.len() {
        let chunks: Vec<&[u8]> = stream.chunks(size).collect();
        assert_eq!(lines_of(&chunks), whole);
    }
}

#[test]
fn text_line_comes_back() {
    for text in ["plain", "", "größe", "with\rinside"] {
        let mut bytes = text.as_bytes().to_vec();
        bytes.push(b'\n');
        assert_eq!(lines_of(&[&bytes]), vec![text]);
    }
}

#[test]
fn status_bar() {
    assert_eq!(write_status(0), "0 lines   ↑↓ scroll   q quit");
    assert_eq!(write_status(1), "1 line   ↑↓ scroll   q quit");
    assert_eq!(write_status(12), "12 lines   ↑↓ scroll   q quit");
}

#[test]
fn receive_screen_follows_the_lines() {
    let mut screen = RxScreen::new("/dev/ttyACM0", 115200);
    assert_eq!(screen.title(), "portcall — /dev/ttyACM0 @ 115200 baud");
    assert_eq!(screen.status(), "0 lines   ↑↓ scroll   q quit");

    let update = screen.append(b"no line yet");
    assert_eq!(update.item_count, 0);
    assert_eq!(update.reveal, None);
    assert!(update.status.is_none());

    let update = screen.append(b"\n");
    assert_eq!(update.item_count, 1);
    assert_eq!(update.reveal, Some(0));
    assert_eq!(update.status, Some("1 line   ↑↓ scroll   q quit".to_string()));
    assert_eq!(screen.line(0), Some("no line yet".to_string()));

    let update = screen.append(b"more");
    assert_eq!(update.item_count, 1);
    assert_eq!(update.reveal, Some(0));
    assert!(update.status.is_none());

    let update = screen.append(b"\nand\n");
    assert_eq!(update.item_count, 3);
    assert_eq!(update.reveal, Some(2));
    assert_eq!(update.status, Some("3 lines   ↑↓ scroll   q quit".to_string()));
    assert_eq!(screen.status(), "3 lines   ↑↓ scroll   q quit");
}

#[test]
fn receive_screen_keys() {
    let screen = RxScreen::new("COM3", 9600);
    let key = |key, ctrl| Chord { key, ctrl, other_modifier: false };
    assert!(matches!(screen.on_input(key(Key::Char('q'), false)), RxReaction::Quit));
    assert!(matches!(screen.on_input(key(Key::Char('c'), true)), RxReaction::Quit));
    assert!(matches!(screen.on_input(key(Key::Char('c'), false)), RxReaction::Delegate));
    assert!(matches!(screen.on_input(key(Key::Up, false)), RxReaction::Delegate));
}
