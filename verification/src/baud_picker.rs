//! The screen on which the baud rate is found: by a scan, or typed in by hand.

use vstd::prelude::*;
use vstd::string::*;

use crate::input::{ascii_digit, plain, quits, typed_digit, Chord, Key};
use crate::scan::ScanUpdate;
use crate::score::{is_match, matching};
use crate::single::{binary_hundredths, Binary, Single};
use crate::text::{
    decimal, digit, law_decimal_grows_by_a_digit, law_padding_fills_the_column, pad_left,
    padded_left, texts, write_decimal, write_digit,
};

verus! {

/// The number that decimal digits stand for.
pub open spec fn digits_value(digits: Seq<char>) -> nat
    decreases digits.len(),
{
    if digits.len() == 0 {
        0
    } else {
        digits_value(digits.drop_last()) * 10 + (digits.last() as nat - '0' as nat) as nat
    }
}

/// Whether all of `text` are decimal digits.
pub open spec fn all_digits(text: Seq<char>) -> bool {
    forall|i: int| 0 <= i < text.len() ==> ascii_digit(#[trigger] text[i])
}

/// `text` behind the plus sign that a number may begin with.
pub open spec fn unsigned_part(text: Seq<char>) -> Seq<char> {
    if text.len() > 0 && text[0] == '+' {
        text.drop_first()
    } else {
        text
    }
}

/// The baud rate that a text names: a positive number of 32 bits in decimal.
pub open spec fn baud_named(text: Seq<char>) -> Option<u32> {
    let digits = unsigned_part(text);
    let value = digits_value(digits);
    if digits.len() > 0 && all_digits(digits) && 0 < value <= u32::MAX {
        Some(value as u32)
    } else {
        None
    }
}

/// A longer row of digits stands for no smaller number.
proof fn lemma_digits_grow(digits: Seq<char>, len: int)
    requires
        0 <= len <= digits.len(),
        all_digits(digits),
    ensures
        digits_value(digits.take(len)) <= digits_value(digits),
    decreases digits.len(),
{
    if len < digits.len() {
        let fewer = digits.drop_last();
        assert forall|i: int| 0 <= i < fewer.len() implies ascii_digit(#[trigger] fewer[i]) by {
            assert(fewer[i] == digits[i]);
        }
        lemma_digits_grow(fewer, len);
        assert(fewer.take(len) =~= digits.take(len));
        assert(ascii_digit(digits.last()));
    } else {
        assert(digits.take(len) =~= digits);
    }
}

/// Reads a baud rate that was typed in: `None` for anything but a positive number of 32 bits.
pub fn parse_baud(text: &str) -> (out: Option<u32>)
    ensures
        out == baud_named(text@),
{
    let len: usize = text.unicode_len();
    let start: usize = if len > 0 && text.get_char(0) == '+' {
        1
    } else {
        0
    };
    let ghost digits = unsigned_part(text@);
    assert(digits =~= text@.skip(start as int));
    if start == len {
        return None;
    }
    let mut value: u64 = 0;
    let mut i: usize = start;
    assert(digits.take(0) =~= Seq::empty());
    while i < len
        invariant
            start <= i <= len,
            start <= 1,
            len == text@.len(),
            digits == unsigned_part(text@),
            digits == text@.skip(start as int),
            value == digits_value(digits.take(i - start)),
            value <= u32::MAX,
            all_digits(digits.take(i - start)),
        decreases len - i,
    {
        let c: char = text.get_char(i);
        assert(c == digits[i - start]);
        if c < '0' || '9' < c {
            return None;
        }
        let ghost seen = digits.take(i - start);
        let ghost next = digits.take(i - start + 1);
        assert(next.drop_last() =~= seen);
        assert(next.last() == c);
        assert forall|j: int| 0 <= j < next.len() implies ascii_digit(#[trigger] next[j]) by {
            if j < seen.len() {
                assert(next[j] == seen[j]);
            }
        }
        value = value * 10 + (c as u64 - '0' as u64);
        if value > 4_294_967_295 {
            proof {
                if all_digits(digits) {
                    lemma_digits_grow(digits, i - start + 1);
                }
            }
            return None;
        }
        i = i + 1;
    }
    assert(digits.take(i - start) =~= digits);
    if value > 0 {
        Some(value as u32)
    } else {
        None
    }
}

/// A number of hundredths as a decimal fraction with two places.
pub open spec fn two_places(hundredths: nat) -> Seq<char> {
    decimal(hundredths / 100) + "."@ + seq![
        digit((hundredths / 10 % 10) as int),
        digit((hundredths % 10) as int),
    ]
}

/// The line that tells the score of a candidate rate; a match is marked.
pub open spec fn scan_line(rate: u32, score: Binary) -> Seq<char> {
    "  "@ + padded_left(decimal(rate as nat), 7) + "  "@ + two_places(binary_hundredths(score)) + (
    if matching(score) {
        "  ← best"@
    } else {
        ""@
    })
}

/// Writes the line that tells the score of a candidate rate.
pub fn write_scan_line(rate: u32, score: &Single) -> (out: String)
    ensures
        out@ == scan_line(rate, score@),
{
    let hundredths: u32 = score.hundredths();
    let mut out = "  ".to_owned();
    out.append(pad_left(write_decimal(rate as u64).as_str(), 7).as_str());
    out.append("  ");
    let ghost start = out@;
    out.append(write_decimal((hundredths / 100) as u64).as_str());
    out.append(".");
    write_digit(&mut out, (hundredths / 10 % 10) as u8);
    write_digit(&mut out, (hundredths % 10) as u8);
    assert(out@ =~= start + two_places(hundredths as nat));
    if is_match(score) {
        out.append("  ← best");
    } else {
        out.append("");
    }
    out
}

/// Where the search for the baud rate stands.
pub enum BaudPhase {
    /// Initial state: the choice between scanning and typing.
    Prompt,
    /// Auto-detection is running; one line per scanned rate.
    Scanning { lines: Vec<String> },
    /// The user is typing a rate.
    Manual { input: String },
    /// The rate is found.
    Done(u32),
}

/// Where the search for the baud rate stands.
#[verifier::ext_equal]
pub enum PhaseState {
    Prompt,
    Scanning(Seq<Seq<char>>),
    Manual(Seq<char>),
    Done(u32),
}

impl View for BaudPhase {
    type V = PhaseState;

    open spec fn view(&self) -> PhaseState {
        match *self {
            BaudPhase::Prompt => PhaseState::Prompt,
            BaudPhase::Scanning { lines } => PhaseState::Scanning(texts(lines@)),
            BaudPhase::Manual { input } => PhaseState::Manual(input@),
            BaudPhase::Done(baud) => PhaseState::Done(baud),
        }
    }
}

/// What the baud picker holds.
#[verifier::ext_equal]
pub struct BaudState {
    /// The port whose rate is sought.
    pub port: Seq<char>,
    pub phase: PhaseState,
    /// The rate that was found and not yet acted upon.
    pub resolved: Option<u32>,
    /// Whether a scan was asked for and not yet begun.
    pub wants_scan: bool,
}

/// What the baud picker wants done.
pub enum BaudReaction {
    /// End the program.
    Quit,
    /// Show the content and the footer anew.
    RefreshAll,
    /// Show the content anew.
    RefreshContent,
    /// Nothing more.
    Handled,
    /// Let the widgets of the screen have the key.
    Delegate,
}

/// The baud picker at its start.
pub open spec fn baud_start(port: Seq<char>) -> BaudState {
    BaudState { port, phase: PhaseState::Prompt, resolved: None, wants_scan: false }
}

/// `input` without its last character, if it has one.
pub open spec fn shortened(input: Seq<char>) -> Seq<char> {
    if input.len() > 0 {
        input.drop_last()
    } else {
        input
    }
}

/// What a key press means, other than one that quits: the state after it, and what is wanted.
pub open spec fn baud_key(state: BaudState, chord: Chord) -> (BaudState, BaudReaction) {
    match state.phase {
        PhaseState::Prompt => if plain(chord, Key::Char('a')) || plain(chord, Key::Enter) {
            (
                BaudState {
                    phase: PhaseState::Scanning(Seq::empty()),
                    wants_scan: true,
                    ..state
                },
                BaudReaction::RefreshAll,
            )
        } else if plain(chord, Key::Char('b')) {
            (
                BaudState { phase: PhaseState::Manual(Seq::empty()), ..state },
                BaudReaction::RefreshAll,
            )
        } else {
            match typed_digit(chord) {
                Some(c) => (
                    BaudState { phase: PhaseState::Manual(seq![c]), ..state },
                    BaudReaction::RefreshAll,
                ),
                None => (state, BaudReaction::Delegate),
            }
        },
        PhaseState::Manual(input) => match typed_digit(chord) {
            Some(c) => (
                BaudState { phase: PhaseState::Manual(input.push(c)), ..state },
                BaudReaction::RefreshContent,
            ),
            None => if plain(chord, Key::Backspace) {
                (
                    BaudState { phase: PhaseState::Manual(shortened(input)), ..state },
                    BaudReaction::RefreshContent,
                )
            } else if plain(chord, Key::Enter) {
                match baud_named(input) {
                    Some(baud) => (
                        BaudState {
                            phase: PhaseState::Done(baud),
                            resolved: Some(baud),
                            ..state
                        },
                        BaudReaction::RefreshAll,
                    ),
                    None => (state, BaudReaction::Handled),
                }
            } else {
                (state, BaudReaction::Delegate)
            },
        },
        _ => (state, BaudReaction::Delegate),
    }
}

/// What the picker holds after a key press.
pub open spec fn baud_after(state: BaudState, chord: Chord) -> BaudState {
    if quits(chord) {
        state
    } else {
        baud_key(state, chord).0
    }
}

/// What the picker wants done about a key press.
pub open spec fn baud_reaction(state: BaudState, chord: Chord) -> BaudReaction {
    if quits(chord) {
        BaudReaction::Quit
    } else {
        baud_key(state, chord).1
    }
}

/// What the picker holds after a candidate rate was scored.
pub open spec fn baud_after_update(state: BaudState, rate: u32, score: Binary) -> BaudState {
    match state.phase {
        PhaseState::Scanning(lines) => BaudState {
            phase: PhaseState::Scanning(lines.push(scan_line(rate, score))),
            ..state
        },
        _ => state,
    }
}

/// What the picker holds after the scan has ended: the rate that was found stands, and where
/// none was found the user types one. An end that comes when no scan is shown means nothing.
pub open spec fn baud_after_scan(state: BaudState, found: Option<u32>) -> BaudState {
    match state.phase {
        PhaseState::Scanning(_) => match found {
            Some(baud) => BaudState {
                phase: PhaseState::Done(baud),
                resolved: Some(baud),
                ..state
            },
            None => BaudState { phase: PhaseState::Manual(Seq::empty()), ..state },
        },
        _ => state,
    }
}

/// What the picker holds once its request for a scan was handed over.
pub open spec fn scan_handed_over(state: BaudState) -> BaudState {
    BaudState { wants_scan: false, ..state }
}

/// What the picker holds once the rate that was found was handed over.
pub open spec fn rate_handed_over(state: BaudState) -> BaudState {
    BaudState { resolved: None, ..state }
}

/// The prompt.
pub open spec fn prompt() -> Seq<char> {
    "Device must be transmitting ASCII text for auto-detection.\n\nPress A  to auto-detect baud rate\nPress B  to enter baud rate manually\nOr start typing the baud rate directly."@
}

/// `lines`, each with a newline behind it.
pub open spec fn stacked(lines: Seq<Seq<char>>) -> Seq<char>
    decreases lines.len(),
{
    if lines.len() == 0 {
        Seq::empty()
    } else {
        stacked(lines.drop_last()) + lines.last() + "\n"@
    }
}

/// The text of the content area.
pub open spec fn content_text(phase: PhaseState) -> Seq<char> {
    match phase {
        PhaseState::Prompt => prompt(),
        PhaseState::Scanning(lines) => "Scanning baud rates…\n\n"@ + stacked(lines),
        PhaseState::Manual(input) => "Baud rate: "@ + input + "▌"@,
        PhaseState::Done(baud) => "auto: "@ + decimal(baud as nat)
            + " baud detected.\n\nConnecting…"@,
    }
}

/// The text of the footer.
pub open spec fn footer_text(phase: PhaseState) -> Seq<char> {
    match phase {
        PhaseState::Prompt => "A auto-detect   B manual baud   q quit"@,
        PhaseState::Scanning(_) => "Scanning…   q quit"@,
        PhaseState::Manual(_) => "0–9 type baud   Backspace delete   Enter confirm   q quit"@,
        PhaseState::Done(_) => "Connecting…"@,
    }
}

/// The screen that resolves a baud rate, by a scan or by manual entry.
pub struct BaudPickerScreen {
    port: String,
    phase: BaudPhase,
    resolved: Option<u32>,
    wants_scan: bool,
}

impl View for BaudPickerScreen {
    type V = BaudState;

    closed spec fn view(&self) -> BaudState {
        BaudState {
            port: self.port@,
            phase: self.phase@,
            resolved: self.resolved,
            wants_scan: self.wants_scan,
        }
    }
}

impl BaudPickerScreen {
    /// The picker for the rate of `port`, at its start.
    pub fn new(port: String) -> (out: Self)
        ensures
            out@ == baud_start(port@),
    {
        BaudPickerScreen { port, phase: BaudPhase::Prompt, resolved: None, wants_scan: false }
    }

    /// The port whose rate is sought.
    pub fn port(&self) -> (out: String)
        ensures
            out@ == self@.port,
    {
        self.port.clone()
    }

    /// The text of the title bar.
    pub fn title(&self) -> (out: String)
        ensures
            out@ == "portcall — "@ + self@.port,
    {
        let mut out = "portcall — ".to_owned();
        out.append(self.port.as_str());
        out
    }

    /// The prompt.
    pub fn prompt_text() -> (out: &'static str)
        ensures
            out@ == prompt(),
    {
        "Device must be transmitting ASCII text for auto-detection.\n\nPress A  to auto-detect baud rate\nPress B  to enter baud rate manually\nOr start typing the baud rate directly."
    }

    /// The text of the content area.
    pub fn content(&self) -> (out: String)
        ensures
            out@ == content_text(self@.phase),
    {
        match &self.phase {
            BaudPhase::Prompt => Self::prompt_text().to_owned(),
            BaudPhase::Scanning { lines } => {
                let mut out = "Scanning baud rates…\n\n".to_owned();
                let ghost start = out@;
                let ghost all = texts(lines@);
                let mut i: usize = 0;
                assert(start + stacked(all.take(0)) =~= start);
                while i < lines.len()
                    invariant
                        i <= lines@.len(),
                        all == texts(lines@),
                        out@ == start + stacked(all.take(i as int)),
                    decreases lines@.len() - i,
                {
                    out.append(lines[i].as_str());
                    out.append("\n");
                    assert(all.take(i + 1).drop_last() =~= all.take(i as int));
                    assert(all.take(i + 1).last() == lines@[i as int]@);
                    i = i + 1;
                    assert(out@ =~= start + stacked(all.take(i as int)));
                }
                assert(all.take(i as int) =~= all);
                out
            },
            BaudPhase::Manual { input } => {
                let mut out = "Baud rate: ".to_owned();
                out.append(input.as_str());
                out.append("▌");
                out
            },
            BaudPhase::Done(baud) => {
                let mut out = "auto: ".to_owned();
                out.append(write_decimal(*baud as u64).as_str());
                out.append(" baud detected.\n\nConnecting…");
                out
            },
        }
    }

    /// The text of the footer.
    pub fn footer(&self) -> (out: &'static str)
        ensures
            out@ == footer_text(self@.phase),
    {
        match &self.phase {
            BaudPhase::Prompt => "A auto-detect   B manual baud   q quit",
            BaudPhase::Scanning { .. } => "Scanning…   q quit",
            BaudPhase::Manual { .. } => "0–9 type baud   Backspace delete   Enter confirm   q quit",
            BaudPhase::Done(_) => "Connecting…",
        }
    }

    /// Takes a key press.
    pub fn on_input(&mut self, chord: Chord) -> (out: BaudReaction)
        ensures
            final(self)@ == baud_after(old(self)@, chord),
            out == baud_reaction(old(self)@, chord),
    {
        if chord.is_quit() {
            return BaudReaction::Quit;
        }
        match &mut self.phase {
            BaudPhase::Prompt => {
                if chord.is_plain(Key::Char('a')) || chord.is_plain(Key::Enter) {
                    let lines: Vec<String> = Vec::new();
                    assert(texts(lines@) =~= Seq::empty());
                    self.phase = BaudPhase::Scanning { lines };
                    self.wants_scan = true;
                    return BaudReaction::RefreshAll;
                }
                if chord.is_plain(Key::Char('b')) {
                    self.phase = BaudPhase::Manual { input: String::new() };
                    return BaudReaction::RefreshAll;
                }
                if let Some(c) = chord.digit() {
                    let mut input = String::new();
                    input.push(c);
                    assert(input@ =~= seq![c]);
                    self.phase = BaudPhase::Manual { input };
                    return BaudReaction::RefreshAll;
                }
                BaudReaction::Delegate
            },
            BaudPhase::Manual { input } => {
                if let Some(c) = chord.digit() {
                    input.push(c);
                    return BaudReaction::RefreshContent;
                }
                if chord.is_plain(Key::Backspace) {
                    input.pop();
                    return BaudReaction::RefreshContent;
                }
                if chord.is_plain(Key::Enter) {
                    if let Some(baud) = parse_baud(input.as_str()) {
                        self.phase = BaudPhase::Done(baud);
                        self.resolved = Some(baud);
                        return BaudReaction::RefreshAll;
                    }
                    return BaudReaction::Handled;
                }
                BaudReaction::Delegate
            },
            _ => BaudReaction::Delegate,
        }
    }

    /// Takes the score of a candidate rate; it is shown while the scan is.
    pub fn on_scan_update(&mut self, update: &ScanUpdate) -> (out: BaudReaction)
        ensures
            final(self)@ == baud_after_update(old(self)@, update.rate, update.score@),
            out == (if old(self)@.phase is Scanning {
                BaudReaction::RefreshContent
            } else {
                BaudReaction::Handled
            }),
    {
        match &mut self.phase {
            BaudPhase::Scanning { lines } => {
                let ghost before = lines@;
                lines.push(write_scan_line(update.rate, &update.score));
                assert(texts(lines@) =~= texts(before).push(
                    scan_line(update.rate, update.score@),
                ));
                BaudReaction::RefreshContent
            },
            _ => BaudReaction::Handled,
        }
    }

    /// Takes the end of the scan.
    pub fn on_scan_done(&mut self, found: Option<u32>) -> (out: BaudReaction)
        ensures
            final(self)@ == baud_after_scan(old(self)@, found),
            out == (if old(self)@.phase is Scanning {
                BaudReaction::RefreshAll
            } else {
                BaudReaction::Handled
            }),
    {
        match &self.phase {
            BaudPhase::Scanning { .. } => {},
            _ => {
                return BaudReaction::Handled;
            },
        }
        match found {
            Some(baud) => {
                self.phase = BaudPhase::Done(baud);
                self.resolved = Some(baud);
            },
            None => {
                self.phase = BaudPhase::Manual { input: String::new() };
            },
        }
        BaudReaction::RefreshAll
    }

    /// Hands over the request for a scan, if there is one.
    pub fn take_scan_request(&mut self) -> (out: bool)
        ensures
            out == old(self)@.wants_scan,
            final(self)@ == scan_handed_over(old(self)@),
    {
        let out: bool = self.wants_scan;
        self.wants_scan = false;
        out
    }

    /// Hands over the rate that was found, if one was.
    pub fn take_resolved(&mut self) -> (out: Option<u32>)
        ensures
            out == old(self)@.resolved,
            final(self)@ == rate_handed_over(old(self)@),
    {
        self.resolved.take()
    }
}

/// The decimal digits of a number stand for that number.
proof fn lemma_decimal_value(n: nat)
    ensures
        decimal(n).len() > 0,
        all_digits(decimal(n)),
        digits_value(decimal(n)) == n,
    decreases n,
{
    let text = decimal(n);
    if n < 10 {
        assert(ascii_digit(text[0]));
        assert(text.drop_last() =~= Seq::empty());
        assert(digits_value(text.drop_last()) == 0);
        assert(text.last() == digit(n as int));
    } else {
        let head = decimal(n / 10);
        lemma_decimal_value(n / 10);
        assert(text.drop_last() =~= head);
        assert forall|i: int| 0 <= i < text.len() implies ascii_digit(#[trigger] text[i]) by {
            if i < head.len() {
                assert(text[i] == head[i]);
            }
        }
    }
}

/// Every rate is read from its own decimal digits.
pub proof fn law_decimal_names_its_rate(baud: u32)
    requires
        baud > 0,
    ensures
        baud_named(decimal(baud as nat)) == Some(baud),
{
    lemma_decimal_value(baud as nat);
    assert(ascii_digit(decimal(baud as nat)[0]));
}

/// The chord of a character typed with no modifier held.
pub open spec fn typed_char(c: char) -> Chord {
    Chord { key: Key::Char(c), ctrl: false, other_modifier: false }
}

/// What the picker holds after `text` was typed, character by character.
pub open spec fn after_typing(state: BaudState, text: Seq<char>) -> BaudState
    decreases text.len(),
{
    if text.len() == 0 {
        state
    } else {
        baud_after(after_typing(state, text.drop_last()), typed_char(text.last()))
    }
}

/// Digits that are typed are the manual entry, also where they are typed at the prompt.
proof fn lemma_digits_are_entered(state: BaudState, text: Seq<char>)
    requires
        state.phase is Prompt || state.phase == PhaseState::Manual(Seq::empty()),
        text.len() > 0,
        all_digits(text),
    ensures
        after_typing(state, text) == (BaudState { phase: PhaseState::Manual(text), ..state }),
    decreases text.len(),
{
    let before = text.drop_last();
    assert(ascii_digit(text.last()));
    assert(before.push(text.last()) =~= text);
    if before.len() == 0 {
        assert(text =~= seq![text.last()]);
        assert(Seq::<char>::empty().push(text.last()) =~= text);
        assert(after_typing(state, before) == state);
    } else {
        assert forall|i: int| 0 <= i < before.len() implies ascii_digit(#[trigger] before[i]) by {
            assert(before[i] == text[i]);
        }
        lemma_digits_are_entered(state, before);
    }
}

/// Typing a rate and pressing Enter resolves that rate, from the prompt as well as from an empty
/// manual entry.
pub proof fn law_typed_rate_is_resolved(state: BaudState, baud: u32, enter: Chord)
    requires
        state.phase is Prompt || state.phase == PhaseState::Manual(Seq::empty()),
        baud > 0,
        plain(enter, Key::Enter),
    ensures
        baud_after(after_typing(state, decimal(baud as nat)), enter) == (BaudState {
            phase: PhaseState::Done(baud),
            resolved: Some(baud),
            ..state
        }),
{
    lemma_decimal_value(baud as nat);
    lemma_digits_are_entered(state, decimal(baud as nat));
    law_decimal_names_its_rate(baud);
}

/// In manual entry, Backspace takes back a digit.
pub proof fn law_backspace_takes_back_a_digit(
    state: BaudState,
    digit_chord: Chord,
    backspace: Chord,
)
    requires
        state.phase is Manual,
        typed_digit(digit_chord) is Some,
        plain(backspace, Key::Backspace),
    ensures
        baud_after(baud_after(state, digit_chord), backspace) == state,
{
    let input = state.phase->Manual_0;
    let c = typed_digit(digit_chord)->0;
    assert(input.push(c).drop_last() =~= input);
}

/// While the scan runs, and once the rate is found, no key press changes anything.
pub proof fn law_keys_wait_for_the_scan(state: BaudState, chord: Chord)
    requires
        state.phase is Scanning || state.phase is Done,
    ensures
        baud_after(state, chord) == state,
{
}

/// Messages of a scan that is no longer shown change nothing.
pub proof fn law_late_scan_messages_are_ignored(
    state: BaudState,
    rate: u32,
    score: Binary,
    found: Option<u32>,
)
    requires
        state.phase !is Scanning,
    ensures
        baud_after_update(state, rate, score) == state,
        baud_after_scan(state, found) == state,
{
}

/// Whether the parts of a state fit each other: at the prompt no scan waits to be begun, a manual
/// entry holds digits only, and a rate that waits to be acted upon is the one that was found.
pub open spec fn baud_consistent(state: BaudState) -> bool {
    &&& match state.phase {
        PhaseState::Prompt => !state.wants_scan,
        PhaseState::Manual(input) => all_digits(input),
        _ => true,
    }
    &&& match state.resolved {
        Some(baud) => state.phase == PhaseState::Done(baud),
        None => true,
    }
}

/// Whether a step keeps what no step may change: the parts fit each other, the port is the same,
/// and a rate that was found stays found.
pub open spec fn baud_step_keeps(before: BaudState, after: BaudState) -> bool {
    &&& baud_consistent(after)
    &&& after.port == before.port
    &&& before.phase is Done ==> after.phase == before.phase
}

/// The parts of a state fit each other at the start. They still do after every key press, every
/// message of the scan and every hand-over; none of these changes the port, or takes back a rate
/// that was found.
pub proof fn law_baud_state_stays_consistent(
    state: BaudState,
    chord: Chord,
    rate: u32,
    score: Binary,
    found: Option<u32>,
    port: Seq<char>,
)
    requires
        baud_consistent(state),
    ensures
        baud_consistent(baud_start(port)),
        baud_step_keeps(state, baud_after(state, chord)),
        baud_step_keeps(state, baud_after_update(state, rate, score)),
        baud_step_keeps(state, baud_after_scan(state, found)),
        baud_step_keeps(state, scan_handed_over(state)),
        baud_step_keeps(state, rate_handed_over(state)),
{
    let next = baud_after(state, chord);
    if let PhaseState::Manual(input) = next.phase {
        assert forall|i: int| 0 <= i < input.len() implies ascii_digit(#[trigger] input[i]) by {
            if let PhaseState::Manual(before) = state.phase {
                if i < before.len() {
                    assert(ascii_digit(before[i]));
                }
            }
        }
    }
}

/// `n` zeros.
pub open spec fn zero_digits(n: nat) -> Seq<char> {
    Seq::new(n, |i: int| '0')
}

/// A rate in decimal, with zeros before it.
pub open spec fn zeros_and_rate(zeros: nat, baud: u32) -> Seq<char> {
    zero_digits(zeros) + decimal(baud as nat)
}

/// Leading zeros, and a plus sign before them, make no difference to the rate that is read.
pub proof fn law_zeros_and_a_plus_make_no_difference(baud: u32, zeros: nat)
    requires
        baud > 0,
    ensures
        baud_named(zeros_and_rate(zeros, baud)) == Some(baud),
        baud_named(seq!['+'] + zeros_and_rate(zeros, baud)) == Some(baud),
{
    let digits = decimal(baud as nat);
    let text = zero_digits(zeros) + digits;
    lemma_decimal_value(baud as nat);
    lemma_zeros_before(zeros, digits);
    assert(ascii_digit(text[0]));
    assert((seq!['+'] + text).drop_first() =~= text);
}

/// Zeros before digits do not change the number.
proof fn lemma_zeros_before(zeros: nat, digits: Seq<char>)
    requires
        all_digits(digits),
    ensures
        all_digits(zero_digits(zeros) + digits),
        digits_value(zero_digits(zeros) + digits) == digits_value(digits),
    decreases zeros + digits.len(),
{
    let front = zero_digits(zeros);
    let text = front + digits;
    assert forall|i: int| 0 <= i < text.len() implies ascii_digit(#[trigger] text[i]) by {
        if i >= zeros {
            assert(text[i] == digits[i - zeros]);
        }
    }
    if digits.len() > 0 {
        let fewer = digits.drop_last();
        assert forall|i: int| 0 <= i < fewer.len() implies ascii_digit(#[trigger] fewer[i]) by {
            assert(fewer[i] == digits[i]);
        }
        lemma_zeros_before(zeros, fewer);
        assert(text.drop_last() =~= front + fewer);
    } else if zeros > 0 {
        lemma_zeros_before((zeros - 1) as nat, digits);
        assert(text.drop_last() =~= zero_digits((zeros - 1) as nat) + digits);
    } else {
        assert(text =~= digits);
    }
}

/// Digits that stand for a number are the decimal digits of that number, with zeros before them.
proof fn lemma_digits_are_decimal(digits: Seq<char>) -> (zeros: nat)
    requires
        all_digits(digits),
    ensures
        digits_value(digits) > 0 ==> digits == zero_digits(zeros) + decimal(
            digits_value(digits),
        ),
        digits_value(digits) == 0 ==> digits == zero_digits(zeros),
    decreases digits.len(),
{
    if digits.len() == 0 {
        assert(digits =~= zero_digits(0));
        0
    } else {
        let fewer = digits.drop_last();
        assert forall|i: int| 0 <= i < fewer.len() implies ascii_digit(#[trigger] fewer[i]) by {
            assert(fewer[i] == digits[i]);
        }
        let zeros = lemma_digits_are_decimal(fewer);
        let c = digits.last();
        assert(ascii_digit(digits[digits.len() - 1]));
        let d = (c as nat - 48) as nat;
        let n = digits_value(fewer);
        law_decimal_grows_by_a_digit(n, d);
        assert((48 + d) as char == c);
        let front = zero_digits(zeros);
        assert(digits =~= fewer.push(c));
        if n > 0 {
            assert(fewer == front + decimal(n));
            assert(digits =~= front + decimal(n).push(c));
            zeros
        } else if d > 0 {
            assert(digits =~= front + seq![c]);
            zeros
        } else {
            assert(fewer == front);
            assert(digits =~= zero_digits(zeros + 1));
            zeros + 1
        }
    }
}

/// Where a rate is read from a text, the text is that rate in decimal, with leading zeros and a
/// plus sign at most before it, and the rate is not zero. From any other text none is read.
pub proof fn law_only_numbers_name_a_rate(text: Seq<char>)
    ensures
        match baud_named(text) {
            Some(baud) => {
                &&& baud > 0
                &&& exists|zeros: nat|
                    text == #[trigger] zeros_and_rate(zeros, baud) || text == seq!['+']
                        + zeros_and_rate(zeros, baud)
            },
            None => forall|zeros: nat, baud: u32|
                baud > 0 ==> text != #[trigger] zeros_and_rate(zeros, baud) && text != seq!['+']
                    + zeros_and_rate(zeros, baud),
        },
{
    match baud_named(text) {
        Some(baud) => {
            let digits = unsigned_part(text);
            let zeros = lemma_digits_are_decimal(digits);
            assert(digits == zeros_and_rate(zeros, baud));
            if text != digits {
                assert(text =~= seq!['+'] + digits);
            }
        },
        None => {
            assert forall|zeros: nat, baud: u32| baud > 0 implies text
                != #[trigger] zeros_and_rate(zeros, baud) && text != seq!['+'] + zeros_and_rate(
                zeros,
                baud,
            ) by {
                law_zeros_and_a_plus_make_no_difference(baud, zeros);
            }
        },
    }
}

/// The picker begins at the prompt, for the port that it is given, with nothing to be acted upon.
/// There, `a` and Enter ask for a scan, `b` opens an empty manual entry, and a digit begins one;
/// other keys change nothing, and no key press does anything else.
pub proof fn law_keys_at_the_prompt(port: Seq<char>, state: BaudState, chord: Chord)
    requires
        state.phase is Prompt,
    ensures
        baud_start(port).phase is Prompt,
        baud_start(port).port == port,
        baud_start(port).resolved is None,
        !baud_start(port).wants_scan,
        ({
            let after = baud_after(state, chord);
            let bare = !chord.ctrl && !chord.other_modifier;
            let scans = bare && (chord.key == Key::Char('a') || chord.key == Key::Enter);
            &&& after.port == state.port && after.resolved == state.resolved
            &&& scans ==> after.phase == PhaseState::Scanning(Seq::empty()) && after.wants_scan
            &&& !scans ==> after.wants_scan == state.wants_scan
            &&& bare && chord.key == Key::Char('b') ==> after.phase == PhaseState::Manual(
                Seq::empty(),
            )
            &&& forall|d: int|
                0 <= d < 10 && chord.key == Key::Char(#[trigger] ((48 + d) as char)) ==> after.phase
                    == PhaseState::Manual(seq![(48 + d) as char])
            &&& after.phase is Prompt ==> {
                &&& after == state
                &&& baud_reaction(state, chord) is Delegate || baud_reaction(state, chord) is Quit
            }
            &&& !(after.phase is Prompt) ==> baud_reaction(state, chord) is RefreshAll
            &&& !(after.phase is Prompt) ==> scans || (bare && chord.key == Key::Char('b')) || (
            chord.key is Char && '0' <= chord.key->Char_0 <= '9')
        }),
{
}

/// In a manual entry, a digit goes behind what was typed, however much that is, Backspace takes
/// the last character off, and Enter resolves the rate that is typed, if it is one. Other keys
/// change nothing, and no key press does anything else.
pub proof fn law_keys_in_a_manual_entry(state: BaudState, input: Seq<char>, chord: Chord)
    requires
        state.phase == PhaseState::Manual(input),
    ensures
        ({
            let after = baud_after(state, chord);
            let bare = !chord.ctrl && !chord.other_modifier;
            &&& after.port == state.port && after.wants_scan == state.wants_scan
            &&& forall|d: int|
                0 <= d < 10 && chord.key == Key::Char(#[trigger] ((48 + d) as char)) ==> {
                    &&& after == (BaudState {
                        phase: PhaseState::Manual(input.push((48 + d) as char)),
                        ..state
                    })
                    &&& baud_reaction(state, chord) is RefreshContent
                }
            &&& bare && chord.key == Key::Backspace ==> {
                &&& input.len() > 0 ==> after == (BaudState {
                    phase: PhaseState::Manual(input.take(input.len() - 1)),
                    ..state
                })
                &&& input.len() == 0 ==> after == state
                &&& baud_reaction(state, chord) is RefreshContent
            }
            &&& bare && chord.key == Key::Enter ==> match baud_named(input) {
                Some(baud) => {
                    &&& after == (BaudState {
                        phase: PhaseState::Done(baud),
                        resolved: Some(baud),
                        ..state
                    })
                    &&& baud_reaction(state, chord) is RefreshAll
                },
                None => after == state && baud_reaction(state, chord) is Handled,
            }
            &&& !(bare && (chord.key == Key::Backspace || chord.key == Key::Enter)) && !(
            chord.key is Char && '0' <= chord.key->Char_0 <= '9') ==> {
                &&& after == state
                &&& baud_reaction(state, chord) is Delegate || baud_reaction(state, chord) is Quit
            }
        }),
{
    if input.len() > 0 {
        assert(input.drop_last() =~= input.take(input.len() - 1));
    }
}

/// In every phase the same two chords quit, and they change nothing. While the scan runs, and once
/// the rate is found, all other keys are passed on.
pub proof fn law_quitting_changes_nothing(state: BaudState, chord: Chord)
    ensures
        baud_reaction(state, chord) is Quit <==> {
            ||| chord == (Chord { key: Key::Char('q'), ctrl: false, other_modifier: false })
            ||| chord == (Chord { key: Key::Char('c'), ctrl: true, other_modifier: false })
        },
        baud_reaction(state, chord) is Quit ==> baud_after(state, chord) == state,
        (state.phase is Scanning || state.phase is Done) && !(baud_reaction(state, chord) is Quit)
            ==> baud_reaction(state, chord) is Delegate,
{
}

/// While the scan is shown, each score adds one line behind the others, and the end of the scan
/// brings the rate that was found, or an empty manual entry. Nothing else changes.
pub proof fn law_scan_messages_are_shown(
    state: BaudState,
    lines: Seq<Seq<char>>,
    rate: u32,
    score: Binary,
    found: u32,
)
    requires
        state.phase == PhaseState::Scanning(lines),
    ensures
        baud_after_update(state, rate, score).phase is Scanning,
        baud_after_update(state, rate, score).phase->Scanning_0.len() == lines.len() + 1,
        lines.is_prefix_of(baud_after_update(state, rate, score).phase->Scanning_0),
        baud_after_update(state, rate, score).phase->Scanning_0.last() == scan_line(rate, score),
        (BaudState { phase: state.phase, ..baud_after_update(state, rate, score) }) == state,
        baud_after_scan(state, Some(found)) == (BaudState {
            phase: PhaseState::Done(found),
            resolved: Some(found),
            ..state
        }),
        baud_after_scan(state, None) == (BaudState {
            phase: PhaseState::Manual(Seq::empty()),
            ..state
        }),
{
    assert(lines =~= lines.push(scan_line(rate, score)).subrange(0, lines.len() as int));
}

/// What is handed over is gone, and nothing else is.
pub proof fn law_handing_over_takes_away(state: BaudState)
    ensures
        !scan_handed_over(state).wants_scan,
        (BaudState { wants_scan: state.wants_scan, ..scan_handed_over(state) }) == state,
        rate_handed_over(state).resolved is None,
        (BaudState { resolved: state.resolved, ..rate_handed_over(state) }) == state,
{
}

/// The line of a candidate gives its rate in full, right-aligned in a column of 7 characters
/// behind two spaces; then, behind two more, its score with two places, from which the hundredths
/// can be read back; and at the end the mark, where the score is a match.
pub proof fn law_scan_line_gives_rate_and_score(rate: u32, score: Binary)
    requires
        binary_hundredths(score) <= 999,
    ensures
        ({
            let line = scan_line(rate, score);
            let digits = decimal(rate as nat);
            let end = if digits.len() < 7 {
                9
            } else {
                2 + digits.len() as int
            };
            let value = |c: char| c as int - 48;
            &&& forall|i: int| 0 <= i < end - digits.len() ==> #[trigger] line[i] == ' '
            &&& line.subrange(end - digits.len(), end) == digits
            &&& line[end] == ' ' && line[end + 1] == ' ' && line[end + 3] == '.'
            &&& '0' <= line[end + 2] <= '9' && '0' <= line[end + 4] <= '9' && '0' <= line[end + 5]
                <= '9'
            &&& 100 * value(line[end + 2]) + 10 * value(line[end + 4]) + value(line[end + 5])
                == binary_hundredths(score)
            &&& line.skip(end + 6) == (if matching(score) {
                "  ← best"@
            } else {
                Seq::empty()
            })
        }),
{
    let line = scan_line(rate, score);
    let digits = decimal(rate as nat);
    let end = if digits.len() < 7 {
        9
    } else {
        2 + digits.len() as int
    };
    let h = binary_hundredths(score);
    reveal_strlit("  ");
    reveal_strlit(".");
    reveal_strlit("");
    law_padding_fills_the_column(digits, 7);
    let column = padded_left(digits, 7);
    let places = two_places(h);
    law_decimal_grows_by_a_digit(0, h / 100);
    assert(places =~= seq![
        digit((h / 100) as int),
        '.',
        digit((h / 10 % 10) as int),
        digit((h % 10) as int),
    ]);
    let mark = if matching(score) {
        "  ← best"@
    } else {
        ""@
    };
    assert(line =~= "  "@ + column + "  "@ + places + mark);
    assert forall|i: int| 0 <= i < end - digits.len() implies #[trigger] line[i] == ' ' by {
        if i >= 2 {
            assert(line[i] == column[i - 2]);
        }
    }
    assert(line.subrange(end - digits.len(), end) =~= column.skip(column.len() - digits.len()));
    assert(line.skip(end + 6) =~= mark);
    assert(h == 100 * (h / 100) + 10 * (h / 10 % 10) + h % 10);
}

/// What is shown of the scan is all its lines, in their order, each with a newline behind it.
pub proof fn law_all_scan_lines_are_shown(
    lines: Seq<Seq<char>>,
    more: Seq<Seq<char>>,
    line: Seq<char>,
)
    ensures
        stacked(Seq::empty()) == Seq::<char>::empty(),
        stacked(seq![line]) == line.push('\n'),
        stacked(lines + more) == stacked(lines) + stacked(more),
        content_text(PhaseState::Scanning(lines)) == "Scanning baud rates…\n\n"@ + stacked(lines),
    decreases more.len(),
{
    reveal_strlit("\n");
    assert(seq![line].drop_last() =~= Seq::empty());
    assert(stacked(seq![line].drop_last()) =~= Seq::empty());
    assert(stacked(seq![line]) =~= line.push('\n'));
    if more.len() == 0 {
        assert(lines + more =~= lines);
        assert(stacked(lines) + stacked(more) =~= stacked(lines));
    } else {
        law_all_scan_lines_are_shown(lines, more.drop_last(), line);
        assert((lines + more).drop_last() =~= lines + more.drop_last());
        assert(stacked(lines + more) =~= stacked(lines) + stacked(more));
    }
}

/// A manual entry is shown in full, between its label and the cursor; the rate that was found is
/// shown in decimal, between the two halves of its message.
pub proof fn law_entry_and_rate_are_shown(input: Seq<char>, baud: u32)
    ensures
        ({
            let entry = content_text(PhaseState::Manual(input));
            &&& entry.len() == input.len() + 12
            &&& entry.take(11) == "Baud rate: "@
            &&& entry.subrange(11, 11 + input.len() as int) == input
            &&& entry.last() == '▌'
        }),
        ({
            let digits = decimal(baud as nat);
            let found = content_text(PhaseState::Done(baud));
            &&& found.take(6) == "auto: "@
            &&& found.subrange(6, 6 + digits.len() as int) == digits
            &&& found.skip(6 + digits.len() as int) == " baud detected.\n\nConnecting…"@
        }),
{
    reveal_strlit("Baud rate: ");
    reveal_strlit("▌");
    reveal_strlit("auto: ");
    let entry = content_text(PhaseState::Manual(input));
    assert(entry.take(11) =~= "Baud rate: "@);
    assert(entry.subrange(11, 11 + input.len() as int) =~= input);
    let digits = decimal(baud as nat);
    let found = content_text(PhaseState::Done(baud));
    assert(found.take(6) =~= "auto: "@);
    assert(found.subrange(6, 6 + digits.len() as int) =~= digits);
    assert(found.skip(6 + digits.len() as int) =~= " baud detected.\n\nConnecting…"@);
}

/// The footer depends on the phase alone, not on what was scanned, typed or found.
pub proof fn law_footer_follows_the_phase(
    lines: Seq<Seq<char>>,
    input: Seq<char>,
    baud: u32,
)
    ensures
        footer_text(PhaseState::Prompt) == "A auto-detect   B manual baud   q quit"@,
        footer_text(PhaseState::Scanning(lines)) == "Scanning…   q quit"@,
        footer_text(PhaseState::Manual(input))
            == "0–9 type baud   Backspace delete   Enter confirm   q quit"@,
        footer_text(PhaseState::Done(baud)) == "Connecting…"@,
{
}

/// A phase is seen with all that it holds: the lines of the scan in their order, the entry as it
/// was typed, the rate that was found.
pub proof fn law_phase_is_seen_as_it_is(lines: Vec<String>, input: String, baud: u32)
    ensures
        BaudPhase::Prompt@ is Prompt,
        (BaudPhase::Scanning { lines })@ is Scanning,
        (BaudPhase::Scanning { lines })@->Scanning_0.len() == lines@.len(),
        forall|i: int|
            0 <= i < lines@.len() ==> #[trigger] (BaudPhase::Scanning { lines })@->Scanning_0[i]
                == lines@[i]@,
        (BaudPhase::Manual { input })@ == PhaseState::Manual(input@),
        BaudPhase::Done(baud)@ == PhaseState::Done(baud),
{
}

} // verus!
