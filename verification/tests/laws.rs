use portcall::lines::RxLines;
use portcall::link::{after_read, ReadOutcome, ReaderAction};
use portcall::score::{is_match, score_ascii};
use portcall::single::Single;

#[test]
fn no_line_no_match_on_printable_noise() {
    let score = score_ascii(&[b'x'; 100]);
    assert_eq!(score.hundredths(), 50);
    assert!(!is_match(&score));
}

#[test]
fn short_sample_is_no_match() {
    let score = score_ascii(b"abcdef\n");
    assert_eq!(score.hundredths(), 0);
    assert!(!is_match(&score));
}

#[test]
fn all_text_scores_one() {
    let score = score_ascii(b"abcdefg\n");
    assert_eq!(score.hundredths(), 100);
    assert!(is_match(&score));
    assert!(!score.above(&Single::quotient(1, 1)));
    assert!(!Single::quotient(1, 1).above(&score));
}

#[test]
fn match_at_85_percent() {
    for total in (8..4096u64).step_by(7) {
        for text in 0..=total {
            assert_eq!(is_match(&Single::quotient(text, total)), 100 * text >= 85 * total);
        }
    }
    // Rounding lifts this share, which is just below the border, onto it.
    let (text, total) = (7_130_321u64, 8_388_613u64);
    assert!(100 * text < 85 * total);
    assert!(is_match(&Single::quotient(text, total)));
    assert!(text as f32 / total as f32 >= 0.85);
}

#[test]
fn lines_are_those_of_the_stream() {
    let reads = vec![
        ReadOutcome::Bytes(b"one\ntw".to_vec()),
        ReadOutcome::TimedOut,
        ReadOutcome::Bytes(b"o\nthree\n".to_vec()),
        ReadOutcome::Failed,
        ReadOutcome::Bytes(b"never\n".to_vec()),
    ];
    let mut rx = RxLines::default();
    for read in reads {
        match after_read(read) {
            ReaderAction::Forward(chunk) => rx.feed(&chunk),
            ReaderAction::ReadAgain => {}
            ReaderAction::Stop | ReaderAction::ReportAndStop => break,
        }
    }
    let lines: Vec<String> = (0..rx.line_count()).map(|i| rx.line(i).unwrap()).collect();
    assert_eq!(lines, vec!["one", "two", "three"]);
}

#[test]
fn broken_lines_are_marked_and_others_kept() {
    let mut rx = RxLines::default();
    rx.feed(b"fine\nbro\xF0\x9Fken\n");
    rx.feed(b"\x80\n");
    assert_eq!(rx.line(0), Some("fine".to_string()));
    assert_eq!(rx.line(1), Some("bro\u{FFFD}ken".to_string()));
    assert_eq!(rx.line(2), Some("\u{FFFD}".to_string()));
}

#[test]
fn no_newline_in_any_line() {
    let mut rx = RxLines::default();
    let mut fed = 0;
    let mut bytes: Vec<u8> = Vec::new();
    for a in [b'x', b'\r', b'\n', 0x80, 0xC3, 0xE2, 0xED, 0xF0, 0xFF] {
        for b in [b'\n', b'\r', 0x82, 0xA0, 0xF0] {
            for c in [b'\n', 0x9F, b'y'] {
                bytes.extend_from_slice(&[a, b, c]);
            }
        }
    }
    for chunk in bytes.chunks(4) {
        rx.feed(chunk);
        fed += chunk.iter().filter(|&&b| b == b'\n').count();
        assert_eq!(rx.line_count(), fed);
    }
    for i in 0..rx.line_count() {
        let line = rx.line(i).unwrap();
        assert!(!line.contains('\n'));
        assert!(!line.ends_with('\r'));
    }
}

/// What the wrapper of the lossy decoding claims of a line that is not UTF-8.
#[test]
fn lossy_decoding_keeps_one_line_one_line() {
    for n in 0..=0xFFFFFFu32 {
        let raw = [(n >> 16) as u8, (n >> 8) as u8, n as u8, b'\n'];
        if n % 97 != 0 || raw[..3].contains(&b'\n') || std::str::from_utf8(&raw).is_ok() {
            continue;
        }
        let text = String::from_utf8_lossy(&raw).into_owned();
        assert!(text.ends_with('\n'));
        assert_eq!(text.matches('\n').count(), 1);
        assert!(text.contains('\u{FFFD}'));
    }
}
