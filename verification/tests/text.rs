use portcall::text::{
    is_whitespace, pad_left, pad_right, same_text, starts_with, strip_prefix, trim, write_decimal,
    write_digit, write_hex4,
};

#[test]
fn decimals() {
    for n in [0u64, 7, 9, 10, 11, 99, 100, 9600, 921600, u32::MAX as u64, u64::MAX] {
        assert_eq!(write_decimal(n), n.to_string());
    }
}

#[test]
fn digits_up_to_f() {
    let mut out = String::new();
    for d in 0..16u8 {
        write_digit(&mut out, d);
    }
    assert_eq!(out, "0123456789abcdef");
}

#[test]
fn hexadecimal_of_every_id() {
    for n in 0..=u16::MAX {
        assert_eq!(write_hex4(n), format!("{:04x}", n));
    }
}

#[test]
fn padding_counts_characters() {
    for text in ["", "a", "/dev/ttyUSB0", "größe", "a name that is far too long for it"] {
        for width in [0usize, 1, 5, 7, 22] {
            assert_eq!(pad_right(text, width), format!("{:<w$}", text, w = width));
            assert_eq!(pad_left(text, width), format!("{:>w$}", text, w = width));
        }
    }
}

#[test]
fn whitespace_is_that_of_unicode() {
    for n in 0..=0x10FFFFu32 {
        if let Some(c) = char::from_u32(n) {
            assert_eq!(is_whitespace(c), c.is_whitespace());
        }
    }
}

#[test]
fn trimming() {
    for text in ["", " ", "0", "0\n", " \t0 \r\n", "a b", "\u{2003}x\u{3000}", "\n\n"] {
        assert_eq!(trim(text), text.trim());
    }
}

#[test]
fn prefixes() {
    assert!(starts_with("ttyS0", "ttyS"));
    assert!(starts_with("x", ""));
    assert!(!starts_with("tty", "ttyS"));
    assert!(!starts_with("ttyACM0", "ttyS"));
    assert_eq!(strip_prefix("/dev/ttyS0", "/dev/"), Some("ttyS0"));
    assert_eq!(strip_prefix("COM3", "/dev/"), None);
    assert!(same_text("--all", "--all"));
    assert!(!same_text("--all", "--al"));
    assert!(!same_text("-a", "-b"));
}
