use portcall::score::{is_match, is_textlike, score_ascii};
use portcall::single::Single;

/// The score as a single-precision number.
fn reference(bytes: &[u8]) -> f32 {
    if bytes.len() < 8 {
        return 0.0;
    }
    let textlike = bytes
        .iter()
        .filter(|&&b| (0x20..=0x7E).contains(&b) || b == b'\t' || b == b'\n' || b == b'\r')
        .count();
    let ratio = textlike as f32 / bytes.len() as f32;
    if bytes.iter().any(|&b| b == b'\n' || b == b'\r') {
        ratio
    } else {
        ratio * 0.5
    }
}

/// `text` text-like bytes (a line end first, if `line`), then `noise` others.
fn sample(text: usize, noise: usize, line: bool) -> Vec<u8> {
    let mut out = vec![b'x'; text];
    if line && text > 0 {
        out[0] = b'\n';
    }
    out.resize(text + noise, 0xFF);
    out
}

fn hundredths_text(score: &Single) -> String {
    let h = score.hundredths();
    format!("{}.{:02}", h / 100, h % 100)
}

#[test]
fn textlike_bytes() {
    for b in 0..=255u8 {
        let expected = matches!(b, 0x20..=0x7E | b'\t' | b'\n' | b'\r');
        assert_eq!(is_textlike(b), expected);
    }
}

#[test]
fn scores_agree_with_single_precision() {
    for total in 0..230usize {
        for text in 0..=total {
            for line in [false, true] {
                let bytes = sample(text, total - text, line);
                let expected = reference(&bytes);
                let score = score_ascii(&bytes);
                assert_eq!(hundredths_text(&score), format!("{:.2}", expected));
                assert_eq!(is_match(&score), expected >= 0.85);
            }
        }
    }
}

#[test]
fn order_agrees_with_single_precision() {
    let mut seen: Vec<(Single, f32)> = Vec::new();
    for total in (8..4352usize).rev().take(40) {
        for text in [total, total - 1, total - 2, total / 2, total / 3, 1, 0] {
            for line in [false, true] {
                let bytes = sample(text, total - text, line);
                seen.push((score_ascii(&bytes), reference(&bytes)));
            }
        }
    }
    for (a, x) in &seen {
        for (b, y) in &seen {
            assert_eq!(a.above(b), x > y);
        }
    }
}

#[test]
fn large_counts_round_like_single_precision() {
    for whole in [16_777_215u64, 16_777_217, 16_777_219, 33_554_435, 1 << 40, u64::MAX] {
        for part in [0, 1, 3, whole / 3, whole / 2, whole - whole / 7, whole - 1, whole] {
            let expected = part as f32 / whole as f32;
            let score = Single::quotient(part, whole);
            assert_eq!(hundredths_text(&score), format!("{:.2}", expected));
            assert_eq!(is_match(&score), expected >= 0.85);
            for other in [1u64, 5, 85, 99, 100] {
                let rhs = Single::quotient(other, 100);
                assert_eq!(score.above(&rhs), expected > other as f32 / 100.0);
            }
        }
    }
}
