use portcall::baud_picker::{parse_baud, write_scan_line, BaudPickerScreen, BaudReaction};
use portcall::flow::{App, AppScreen, ScreenReaction, Transition};
use portcall::input::{Chord, Key};
use portcall::port_picker::{PickerReaction, PortPickerScreen};
use portcall::ports::PortEntry;
use portcall::rx_screen::RxReaction;
use portcall::scan::ScanUpdate;
use portcall::single::Single;

fn key(key: Key) -> Chord {
    Chord { key, ctrl: false, other_modifier: false }
}

fn typed(c: char) -> Chord {
    key(Key::Char(c))
}

fn ctrl(c: char) -> Chord {
    Chord { key: Key::Char(c), ctrl: true, other_modifier: false }
}

fn entries(names: &[&str]) -> Vec<PortEntry> {
    names.iter().map(|n| PortEntry { name: n.to_string(), desc: format!("at {}", n) }).collect()
}

fn update(rate: u32, part: u64) -> ScanUpdate {
    ScanUpdate { rate, score: Single::quotient(part, 100) }
}

#[test]
fn port_rows() {
    let mut picker = PortPickerScreen::new(entries(&["COM1", "/dev/a-rather-long-port-name"]));
    assert_eq!(PortPickerScreen::title(), "portcall — select a port");
    assert_eq!(PortPickerScreen::footer(), "↑↓ navigate   Enter select   q quit");
    assert_eq!(picker.port_count(), 2);
    assert_eq!(picker.row(0), Some(format!("> {:<22}  {}", "COM1", "at COM1")));
    assert_eq!(
        picker.row(1),
        Some("  /dev/a-rather-long-port-name  at /dev/a-rather-long-port-name".to_string())
    );
    assert_eq!(picker.row(2), None);
    picker.on_input(key(Key::Down));
    assert_eq!(picker.row(0), Some(format!("  {:<22}  {}", "COM1", "at COM1")));
    assert!(picker.row(1).unwrap().starts_with("> "));
}

#[test]
fn highlight_moves_and_stops_at_the_ends() {
    let mut picker = PortPickerScreen::new(entries(&["a", "b", "c"]));
    assert!(matches!(picker.on_input(key(Key::Up)), PickerReaction::Reveal(0)));
    assert!(matches!(picker.on_input(key(Key::Down)), PickerReaction::Reveal(1)));
    assert!(matches!(picker.on_input(key(Key::Down)), PickerReaction::Reveal(2)));
    assert!(matches!(picker.on_input(key(Key::Down)), PickerReaction::Reveal(2)));
    assert!(matches!(picker.on_input(key(Key::Up)), PickerReaction::Reveal(1)));
    assert!(picker.take_selected().is_none());
    assert!(matches!(picker.on_input(key(Key::Enter)), PickerReaction::Handled));
    assert_eq!(picker.take_selected(), Some("b".to_string()));
    assert!(picker.take_selected().is_none());
}

#[test]
fn other_keys_in_the_port_picker() {
    let mut picker = PortPickerScreen::new(entries(&["a"]));
    assert!(matches!(picker.on_input(typed('q')), PickerReaction::Quit));
    assert!(matches!(picker.on_input(ctrl('c')), PickerReaction::Quit));
    assert!(matches!(picker.on_input(ctrl('q')), PickerReaction::Delegate));
    assert!(matches!(picker.on_input(typed('c')), PickerReaction::Delegate));
    assert!(matches!(picker.on_input(key(Key::Other)), PickerReaction::Delegate));
    let held = Chord { key: Key::Enter, ctrl: false, other_modifier: true };
    assert!(matches!(picker.on_input(held), PickerReaction::Delegate));
}

#[test]
fn empty_port_list() {
    let mut picker = PortPickerScreen::new(Vec::new());
    assert!(matches!(picker.on_input(key(Key::Down)), PickerReaction::Handled));
    assert!(matches!(picker.on_input(key(Key::Up)), PickerReaction::Handled));
    assert!(matches!(picker.on_input(key(Key::Enter)), PickerReaction::Handled));
    assert!(picker.take_selected().is_none());
}

#[test]
fn baud_rates_are_read_like_numbers_of_32_bits() {
    for text in [
        "", "0", "00", "1", "9600", "0009600", "+9600", "+", "++1", "-1", "96 00", " 9600", "9600x",
        "4294967295", "4294967296", "99999999999999999999999999", "00000000000000000000000007", "٣",
    ] {
        assert_eq!(parse_baud(text), text.parse::<u32>().ok().filter(|&b| b > 0));
    }
}

#[test]
fn scan_lines() {
    assert_eq!(write_scan_line(9600, &Single::quotient(1, 3)), "     9600  0.33");
    assert_eq!(write_scan_line(115200, &Single::quotient(17, 20)), "   115200  0.85  ← best");
    assert_eq!(write_scan_line(921600, &Single::quotient(8, 8)), "   921600  1.00  ← best");
    assert_eq!(write_scan_line(12345678, &Single::zero()), "  12345678  0.00");
}

#[test]
fn prompt_screen() {
    let picker = BaudPickerScreen::new("COM3".to_string());
    assert_eq!(picker.title(), "portcall — COM3");
    assert_eq!(picker.port(), "COM3");
    let text = "Device must be transmitting ASCII text for auto-detection.\n\
         \n\
         Press A  to auto-detect baud rate\n\
         Press B  to enter baud rate manually\n\
         Or start typing the baud rate directly.";
    assert_eq!(BaudPickerScreen::prompt_text(), text);
    assert_eq!(picker.content(), text);
    assert_eq!(picker.footer(), "A auto-detect   B manual baud   q quit");
}

#[test]
fn scanning_screen() {
    for start in [typed('a'), key(Key::Enter)] {
        let mut picker = BaudPickerScreen::new("COM3".to_string());
        assert!(matches!(picker.on_input(start), BaudReaction::RefreshAll));
        assert!(picker.take_scan_request());
        assert!(!picker.take_scan_request());
        assert_eq!(picker.content(), "Scanning baud rates…\n\n");
        assert_eq!(picker.footer(), "Scanning…   q quit");
        assert!(matches!(picker.on_scan_update(&update(9600, 12)), BaudReaction::RefreshContent));
        assert!(matches!(picker.on_scan_update(&update(19200, 97)), BaudReaction::RefreshContent));
        assert_eq!(
            picker.content(),
            "Scanning baud rates…\n\n     9600  0.12\n    19200  0.97  ← best\n"
        );
        assert!(matches!(picker.on_input(typed('5')), BaudReaction::Delegate));
        assert!(matches!(picker.on_input(typed('b')), BaudReaction::Delegate));
        assert!(matches!(picker.on_input(typed('q')), BaudReaction::Quit));
        assert!(matches!(picker.on_scan_done(Some(19200)), BaudReaction::RefreshAll));
        assert_eq!(picker.content(), "auto: 19200 baud detected.\n\nConnecting…");
        assert_eq!(picker.footer(), "Connecting…");
        assert_eq!(picker.take_resolved(), Some(19200));
        assert_eq!(picker.take_resolved(), None);
        assert!(matches!(picker.on_input(key(Key::Enter)), BaudReaction::Delegate));
        assert!(matches!(picker.on_scan_update(&update(38400, 97)), BaudReaction::Handled));
        assert!(matches!(picker.on_scan_done(None), BaudReaction::Handled));
    }
}

#[test]
fn fruitless_scan_leads_to_manual_entry() {
    let mut picker = BaudPickerScreen::new("COM3".to_string());
    picker.on_input(typed('a'));
    assert!(matches!(picker.on_scan_done(None), BaudReaction::RefreshAll));
    assert_eq!(picker.content(), "Baud rate: ▌");
    assert_eq!(picker.take_resolved(), None);
}

#[test]
fn manual_entry() {
    let mut picker = BaudPickerScreen::new("COM3".to_string());
    assert!(matches!(picker.on_input(typed('b')), BaudReaction::RefreshAll));
    assert_eq!(picker.content(), "Baud rate: ▌");
    assert_eq!(picker.footer(), "0–9 type baud   Backspace delete   Enter confirm   q quit");
    assert!(matches!(picker.on_input(key(Key::Backspace)), BaudReaction::RefreshContent));
    assert!(matches!(picker.on_input(key(Key::Enter)), BaudReaction::Handled));
    assert!(matches!(picker.on_input(typed('4')), BaudReaction::RefreshContent));
    assert!(matches!(picker.on_input(ctrl('8')), BaudReaction::RefreshContent));
    assert!(matches!(picker.on_input(typed('7')), BaudReaction::RefreshContent));
    assert_eq!(picker.content(), "Baud rate: 487▌");
    assert!(matches!(picker.on_input(key(Key::Backspace)), BaudReaction::RefreshContent));
    assert_eq!(picker.content(), "Baud rate: 48▌");
    assert!(matches!(picker.on_input(typed('x')), BaudReaction::Delegate));
    assert!(matches!(picker.on_input(typed('0')), BaudReaction::RefreshContent));
    assert!(matches!(picker.on_input(typed('0')), BaudReaction::RefreshContent));
    assert!(matches!(picker.on_input(key(Key::Enter)), BaudReaction::RefreshAll));
    assert_eq!(picker.take_resolved(), Some(4800));
    assert_eq!(picker.content(), "auto: 4800 baud detected.\n\nConnecting…");
}

#[test]
fn digit_at_the_prompt_begins_manual_entry() {
    let mut picker = BaudPickerScreen::new("COM3".to_string());
    assert!(matches!(picker.on_input(typed('9')), BaudReaction::RefreshAll));
    assert_eq!(picker.content(), "Baud rate: 9▌");
    let mut other = BaudPickerScreen::new("COM3".to_string());
    assert!(matches!(other.on_input(typed('A')), BaudReaction::Delegate));
    assert!(matches!(other.on_input(ctrl('a')), BaudReaction::Delegate));
    assert!(matches!(other.on_input(ctrl('c')), BaudReaction::Quit));
    assert!(!other.take_scan_request());
}

#[test]
fn rate_out_of_range_is_not_taken() {
    let mut picker = BaudPickerScreen::new("COM3".to_string());
    for c in "4294967296".chars() {
        picker.on_input(typed(c));
    }
    assert!(matches!(picker.on_input(key(Key::Enter)), BaudReaction::Handled));
    assert_eq!(picker.content(), "Baud rate: 4294967296▌");
    assert_eq!(picker.take_resolved(), None);
}

#[test]
fn flow_with_a_scan() {
    let mut app = App::new(entries(&["a", "b"]));
    assert!(matches!(app.screen(), AppScreen::PortPicking(_)));
    let (reaction, transition) = app.on_input(key(Key::Down));
    assert!(matches!(reaction, ScreenReaction::Picker(PickerReaction::Reveal(1))));
    assert!(matches!(transition, Transition::Stay));
    assert!(matches!(app.on_scan_done(Some(9600)).1, Transition::Stay));
    assert!(app.on_rx_bytes(b"x\n").0.is_none());

    let (_, transition) = app.on_input(key(Key::Enter));
    assert!(matches!(transition, Transition::ShowBaudPicker));
    assert!(matches!(app.screen(), AppScreen::BaudPicking(b) if b.port() == "b"));

    let (reaction, transition) = app.on_input(typed('a'));
    assert!(matches!(reaction, ScreenReaction::Baud(BaudReaction::RefreshAll)));
    assert!(matches!(transition, Transition::StartScan(port) if port == "b"));
    assert!(matches!(app.check_transitions(), Transition::Stay));

    let (reaction, transition) = app.on_scan_update(&update(9600, 90));
    assert!(matches!(reaction, BaudReaction::RefreshContent));
    assert!(matches!(transition, Transition::Stay));
    let (reaction, transition) = app.on_scan_done(Some(9600));
    assert!(matches!(reaction, BaudReaction::RefreshAll));
    assert!(matches!(transition, Transition::Connect(port, 9600) if port == "b"));

    assert!(app.on_opened("b", 9600, None).is_none());
    assert!(matches!(app.screen(), AppScreen::Rx(rx) if rx.title() == "portcall — b @ 9600 baud"));
    assert!(matches!(app.on_scan_update(&update(9600, 90)).0, BaudReaction::Handled));
    assert!(matches!(app.on_scan_done(None).0, BaudReaction::Handled));
    let (update, transition) = app.on_rx_bytes(b"one\ntwo\n");
    assert_eq!(update.unwrap().item_count, 2);
    assert!(matches!(transition, Transition::Stay));
    assert!(matches!(app.screen(), AppScreen::Rx(rx) if rx.line(1) == Some("two".to_string())));
    let (reaction, _) = app.on_input(typed('q'));
    assert!(matches!(reaction, ScreenReaction::Rx(RxReaction::Quit)));
}

#[test]
fn flow_with_a_typed_rate() {
    let mut app = App::new(entries(&["a"]));
    app.on_input(key(Key::Enter));
    for c in "57600".chars() {
        assert!(matches!(app.on_input(typed(c)).1, Transition::Stay));
    }
    let (_, transition) = app.on_input(key(Key::Enter));
    assert!(matches!(transition, Transition::Connect(port, 57600) if port == "a"));
    assert!(matches!(app.check_transitions(), Transition::Stay));
    assert_eq!(
        app.on_opened("a", 57600, Some("no such device")),
        Some("error: failed to open a @ 57600: no such device".to_string())
    );
    assert!(matches!(app.screen(), AppScreen::BaudPicking(_)));
}
