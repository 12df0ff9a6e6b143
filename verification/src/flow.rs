//! The flow from screen to screen: pick a port, find its baud rate, watch its lines.

use vstd::prelude::*;
use vstd::string::*;

use crate::baud_picker::{
    after_typing, baud_after, baud_after_scan, baud_after_update, baud_reaction, baud_start,
    law_typed_rate_is_resolved, BaudPickerScreen, BaudReaction, BaudState, PhaseState,
};
use crate::input::{plain, quits, Chord, Key};
use crate::lines::{broken_lines_marked, finished_lines, received_clean};
use crate::port_picker::{
    picker_after, picker_reaction, PickerReaction, PickerState, PortPickerScreen,
};
use crate::ports::{entry_texts, PortEntry};
use crate::rx_screen::{
    rx_after, rx_start, status_text, RxReaction, RxScreen, RxState, RxUpdate,
};
use crate::scan::ScanUpdate;
use crate::single::Binary;
use crate::text::{decimal, write_decimal};

verus! {

/// The screen that is shown.
pub enum AppScreen {
    PortPicking(PortPickerScreen),
    BaudPicking(BaudPickerScreen),
    Rx(RxScreen),
}

/// The screen that is shown, with what it holds.
#[verifier::ext_equal]
pub enum AppState {
    PortPicking(PickerState),
    BaudPicking(BaudState),
    Rx(RxState),
}

impl View for AppScreen {
    type V = AppState;

    open spec fn view(&self) -> AppState {
        match *self {
            AppScreen::PortPicking(screen) => AppState::PortPicking(screen@),
            AppScreen::BaudPicking(screen) => AppState::BaudPicking(screen@),
            AppScreen::Rx(screen) => AppState::Rx(screen@),
        }
    }
}

/// What has to be done for the flow to go on.
pub enum Transition {
    /// Nothing.
    Stay,
    /// The baud picker has come up.
    ShowBaudPicker,
    /// Start a scan of this port, in the background.
    StartScan(String),
    /// Open this port at this rate.
    Connect(String, u32),
}

/// What has to be done for the flow to go on.
#[verifier::ext_equal]
pub enum TransitionText {
    Stay,
    ShowBaudPicker,
    StartScan(Seq<char>),
    Connect(Seq<char>, u32),
}

impl View for Transition {
    type V = TransitionText;

    open spec fn view(&self) -> TransitionText {
        match *self {
            Transition::Stay => TransitionText::Stay,
            Transition::ShowBaudPicker => TransitionText::ShowBaudPicker,
            Transition::StartScan(port) => TransitionText::StartScan(port@),
            Transition::Connect(port, baud) => TransitionText::Connect(port@, baud),
        }
    }
}

/// What the screen that is shown wants done about a key press.
pub enum ScreenReaction {
    Picker(PickerReaction),
    Baud(BaudReaction),
    Rx(RxReaction),
}

/// The first of the things that wait to be acted upon, and the flow once it is acted upon.
pub open spec fn pending(state: AppState) -> (AppState, TransitionText) {
    match state {
        AppState::PortPicking(picker) => match picker.chosen {
            Some(port) => (AppState::BaudPicking(baud_start(port)), TransitionText::ShowBaudPicker),
            None => (state, TransitionText::Stay),
        },
        AppState::BaudPicking(baud) => if baud.wants_scan {
            (
                AppState::BaudPicking(BaudState { wants_scan: false, ..baud }),
                TransitionText::StartScan(baud.port),
            )
        } else {
            match baud.resolved {
                Some(rate) => (
                    AppState::BaudPicking(BaudState { resolved: None, ..baud }),
                    TransitionText::Connect(baud.port, rate),
                ),
                None => (state, TransitionText::Stay),
            }
        },
        AppState::Rx(_) => (state, TransitionText::Stay),
    }
}

/// The screen that is shown, once it has had a key press.
pub open spec fn screen_after_key(state: AppState, chord: Chord) -> AppState {
    match state {
        AppState::PortPicking(picker) => AppState::PortPicking(picker_after(picker, chord)),
        AppState::BaudPicking(baud) => AppState::BaudPicking(baud_after(baud, chord)),
        AppState::Rx(rx) => AppState::Rx(rx),
    }
}

/// The screen that is shown, once it has had the score of a candidate rate. Only the baud picker
/// has a use for it.
pub open spec fn screen_after_update(state: AppState, rate: u32, score: Binary) -> AppState {
    match state {
        AppState::BaudPicking(baud) => AppState::BaudPicking(baud_after_update(baud, rate, score)),
        _ => state,
    }
}

/// The screen that is shown, once it has had the end of the scan. Only the baud picker has a use
/// for it.
pub open spec fn screen_after_scan(state: AppState, found: Option<u32>) -> AppState {
    match state {
        AppState::BaudPicking(baud) => AppState::BaudPicking(baud_after_scan(baud, found)),
        _ => state,
    }
}

/// The screen that is shown, once it has had a received chunk. Only the receive screen has a use
/// for it.
pub open spec fn screen_after_bytes(state: AppState, bytes: Seq<u8>) -> AppState {
    match state {
        AppState::Rx(rx) => AppState::Rx(rx_after(rx, bytes)),
        _ => state,
    }
}

/// The flow once it was tried to open `port` at `baud`: the receive screen comes up, or the screen
/// stays where there is a reason for which it failed.
pub open spec fn after_opening(
    state: AppState,
    port: Seq<char>,
    baud: u32,
    failure: Option<Seq<char>>,
) -> AppState {
    match failure {
        None => AppState::Rx(rx_start(port, baud)),
        Some(_) => state,
    }
}

/// What is told when a port cannot be opened.
pub open spec fn open_error_text(port: Seq<char>, baud: u32, reason: Seq<char>) -> Seq<char> {
    "error: failed to open "@ + port + " @ "@ + decimal(baud as nat) + ": "@ + reason
}

/// Writes what is told when a port cannot be opened.
fn open_error(port: &str, baud: u32, reason: &str) -> (out: String)
    ensures
        out@ == open_error_text(port@, baud, reason@),
{
    let mut out = "error: failed to open ".to_owned();
    out.append(port);
    out.append(" @ ");
    out.append(write_decimal(baud as u64).as_str());
    out.append(": ");
    out.append(reason);
    out
}

/// The three-screen flow: port picker, baud picker, receive screen.
pub struct App {
    screen: AppScreen,
}

impl View for App {
    type V = AppState;

    closed spec fn view(&self) -> AppState {
        self.screen@
    }
}

impl App {
    /// The flow at its start: the user picks one of `ports`.
    pub fn new(ports: Vec<PortEntry>) -> (out: Self)
        ensures
            out@ == AppState::PortPicking(
                PickerState { ports: entry_texts(ports@), selected: 0, chosen: None },
            ),
    {
        App { screen: AppScreen::PortPicking(PortPickerScreen::new(ports)) }
    }

    /// The screen that is shown.
    pub fn screen(&self) -> (out: &AppScreen)
        ensures
            out@ == self@,
    {
        &self.screen
    }

    /// Acts on the first of the things that wait to be acted upon, and says what else has to be
    /// done for it.
    ///
    /// Called after every key press and every message, so that a transition comes promptly on
    /// either path.
    pub fn check_transitions(&mut self) -> (out: Transition)
        ensures
            final(self)@ == pending(old(self)@).0,
            out@ == pending(old(self)@).1,
    {
        match &mut self.screen {
            AppScreen::PortPicking(picker) => match picker.take_selected() {
                Some(port) => {
                    self.screen = AppScreen::BaudPicking(BaudPickerScreen::new(port));
                    Transition::ShowBaudPicker
                },
                None => Transition::Stay,
            },
            AppScreen::BaudPicking(baud) => {
                if baud.take_scan_request() {
                    return Transition::StartScan(baud.port());
                }
                match baud.take_resolved() {
                    Some(rate) => Transition::Connect(baud.port(), rate),
                    None => Transition::Stay,
                }
            },
            AppScreen::Rx(_) => Transition::Stay,
        }
    }

    /// Takes a key press.
    pub fn on_input(&mut self, chord: Chord) -> (out: (ScreenReaction, Transition))
        ensures
            final(self)@ == pending(screen_after_key(old(self)@, chord)).0,
            out.1@ == pending(screen_after_key(old(self)@, chord)).1,
            match old(self)@ {
                AppState::PortPicking(picker) => out.0 == ScreenReaction::Picker(
                    picker_reaction(picker, chord),
                ),
                AppState::BaudPicking(baud) => out.0 == ScreenReaction::Baud(
                    baud_reaction(baud, chord),
                ),
                AppState::Rx(_) => out.0 == ScreenReaction::Rx(
                    if quits(chord) {
                        RxReaction::Quit
                    } else {
                        RxReaction::Delegate
                    },
                ),
            },
    {
        let reaction = match &mut self.screen {
            AppScreen::PortPicking(picker) => ScreenReaction::Picker(picker.on_input(chord)),
            AppScreen::BaudPicking(baud) => ScreenReaction::Baud(baud.on_input(chord)),
            AppScreen::Rx(rx) => ScreenReaction::Rx(rx.on_input(chord)),
        };
        let transition = self.check_transitions();
        (reaction, transition)
    }

    /// Takes the score of a candidate rate; it is dropped unless the baud picker is shown.
    pub fn on_scan_update(&mut self, update: &ScanUpdate) -> (out: (BaudReaction, Transition))
        ensures
            final(self)@ == pending(
                screen_after_update(old(self)@, update.rate, update.score@),
            ).0,
            out.1@ == pending(screen_after_update(old(self)@, update.rate, update.score@)).1,
            out.0 == (match old(self)@ {
                AppState::BaudPicking(baud) => if baud.phase is Scanning {
                    BaudReaction::RefreshContent
                } else {
                    BaudReaction::Handled
                },
                _ => BaudReaction::Handled,
            }),
    {
        let reaction = match &mut self.screen {
            AppScreen::BaudPicking(baud) => baud.on_scan_update(update),
            _ => BaudReaction::Handled,
        };
        let transition = self.check_transitions();
        (reaction, transition)
    }

    /// Takes the end of the scan; it is dropped unless the baud picker is shown.
    pub fn on_scan_done(&mut self, found: Option<u32>) -> (out: (BaudReaction, Transition))
        ensures
            final(self)@ == pending(screen_after_scan(old(self)@, found)).0,
            out.1@ == pending(screen_after_scan(old(self)@, found)).1,
            out.0 == (match old(self)@ {
                AppState::BaudPicking(baud) => if baud.phase is Scanning {
                    BaudReaction::RefreshAll
                } else {
                    BaudReaction::Handled
                },
                _ => BaudReaction::Handled,
            }),
    {
        let reaction = match &mut self.screen {
            AppScreen::BaudPicking(baud) => baud.on_scan_done(found),
            _ => BaudReaction::Handled,
        };
        let transition = self.check_transitions();
        (reaction, transition)
    }

    /// Takes a received chunk; it is dropped unless the receive screen is shown.
    pub fn on_rx_bytes(&mut self, bytes: &[u8]) -> (out: (Option<RxUpdate>, Transition))
        ensures
            final(self)@ == pending(screen_after_bytes(old(self)@, bytes@)).0,
            out.1@ == pending(screen_after_bytes(old(self)@, bytes@)).1,
            match old(self)@ {
                AppState::Rx(rx) => {
                    let count = rx_after(rx, bytes@).line_count;
                    let received = rx_after(rx, bytes@).received;
                    &&& final(self)@ is Rx
                    &&& final(self)@->Rx_0.received == received
                    &&& received_clean(received)
                    &&& broken_lines_marked(
                        finished_lines(rx.received.partial + bytes@),
                        received.lines.skip(rx.received.lines.len() as int),
                    )
                    &&& out.0 is Some
                    &&& out.0->0.item_count == count
                    &&& out.0->0.reveal == (if count > 0 {
                        Some((count - 1) as usize)
                    } else {
                        None
                    })
                    &&& match out.0->0.status {
                        Some(text) => {
                            &&& count != rx.line_count
                            &&& text@ == status_text(count)
                        },
                        None => count == rx.line_count,
                    }
                },
                _ => out.0 is None,
            },
    {
        let update = match &mut self.screen {
            AppScreen::Rx(rx) => Some(rx.append(bytes)),
            _ => None,
        };
        let transition = self.check_transitions();
        (update, transition)
    }

    /// Takes what came of opening `port` at `baud`: the receive screen comes up, or, where the
    /// port could not be opened for the reason given, nothing changes but that the error handed
    /// back is to be told and the program to be ended with a failure.
    pub fn on_opened(&mut self, port: &str, baud: u32, failure: Option<&str>) -> (out: Option<
        String,
    >)
        ensures
            final(self)@ == after_opening(
                old(self)@,
                port@,
                baud,
                match failure {
                    None => None,
                    Some(reason) => Some(reason@),
                },
            ),
            match failure {
                None => out is None,
                Some(reason) => {
                    &&& out is Some
                    &&& out->0@ == open_error_text(port@, baud, reason@)
                },
            },
    {
        match failure {
            None => {
                self.screen = AppScreen::Rx(RxScreen::new(port, baud));
                None
            },
            Some(reason) => Some(open_error(port, baud, reason)),
        }
    }
}

/// The place of a screen in the flow.
pub open spec fn stage(state: AppState) -> int {
    match state {
        AppState::PortPicking(_) => 0,
        AppState::BaudPicking(_) => 1,
        AppState::Rx(_) => 2,
    }
}

/// Whether nothing waits to be acted upon.
pub open spec fn settled(state: AppState) -> bool {
    match state {
        AppState::PortPicking(picker) => picker.chosen is None,
        AppState::BaudPicking(baud) => !baud.wants_scan && baud.resolved is None,
        AppState::Rx(_) => true,
    }
}

/// One check of the transitions settles whatever a key press or a message has left: of the
/// things that can wait to be acted upon there is never more than one. An attempt to open the port
/// leaves nothing to be acted upon.
pub proof fn law_one_check_settles(
    state: AppState,
    chord: Chord,
    rate: u32,
    score: Binary,
    found: Option<u32>,
    bytes: Seq<u8>,
    port: Seq<char>,
    baud: u32,
    failure: Option<Seq<char>>,
)
    requires
        settled(state),
    ensures
        settled(pending(screen_after_key(state, chord)).0),
        settled(pending(screen_after_update(state, rate, score)).0),
        settled(pending(screen_after_scan(state, found)).0),
        settled(pending(screen_after_bytes(state, bytes)).0),
        settled(after_opening(state, port, baud, failure)),
{
}

/// What the flow may do in one go: stay on its screen or go on to the next one. Where that asks
/// for a connection, the baud picker was shown and still is, and the attempt to open the port
/// brings up the receive screen or leaves everything as it is.
pub open spec fn goes_forward(
    before: AppState,
    after: (AppState, TransitionText),
    failure: Option<Seq<char>>,
) -> bool {
    &&& stage(before) <= stage(after.0) <= stage(before) + 1
    &&& match after.1 {
        TransitionText::Connect(port, baud) => {
            let opened = after_opening(after.0, port, baud, failure);
            &&& before is BaudPicking
            &&& after.0 is BaudPicking
            &&& opened == AppState::Rx(rx_start(port, baud)) || opened == after.0
            &&& stage(after.0) <= stage(opened) <= stage(after.0) + 1
        },
        _ => true,
    }
}

/// The flow goes forward only, one screen at a time, after every key press, every message, every
/// further check of the transitions, and every attempt to open the port that these ask for.
pub proof fn law_flow_goes_forward(
    state: AppState,
    chord: Chord,
    rate: u32,
    score: Binary,
    found: Option<u32>,
    bytes: Seq<u8>,
    failure: Option<Seq<char>>,
)
    ensures
        goes_forward(state, pending(state), failure),
        goes_forward(state, pending(screen_after_key(state, chord)), failure),
        goes_forward(state, pending(screen_after_update(state, rate, score)), failure),
        goes_forward(state, pending(screen_after_scan(state, found)), failure),
        goes_forward(state, pending(screen_after_bytes(state, bytes)), failure),
{
}

/// A message for a screen that is not shown changes nothing.
pub proof fn law_stale_messages_are_dropped(
    state: AppState,
    rate: u32,
    score: Binary,
    found: Option<u32>,
    bytes: Seq<u8>,
)
    requires
        settled(state),
    ensures
        state !is BaudPicking ==> pending(screen_after_update(state, rate, score)) == (
            state,
            TransitionText::Stay,
        ),
        state !is BaudPicking ==> pending(screen_after_scan(state, found)) == (
            state,
            TransitionText::Stay,
        ),
        state !is Rx ==> pending(screen_after_bytes(state, bytes)) == (
            state,
            TransitionText::Stay,
        ),
{
}

/// Enter on a highlighted port brings up the baud picker for that port.
pub proof fn law_enter_leads_to_the_baud_picker(picker: PickerState, enter: Chord)
    requires
        plain(enter, Key::Enter),
        picker.selected < picker.ports.len(),
    ensures
        pending(screen_after_key(AppState::PortPicking(picker), enter)) == (
            AppState::BaudPicking(baud_start(picker.ports[picker.selected as int].name)),
            TransitionText::ShowBaudPicker,
        ),
{
}

/// At the prompt, `a` and Enter start a scan of the port, and the rate that the scan finds is
/// the one that is connected at.
pub proof fn law_scanned_rate_is_connected(port: Seq<char>, start: Chord, found: u32)
    requires
        plain(start, Key::Char('a')) || plain(start, Key::Enter),
    ensures
        ({
            let (scanning, first) = pending(
                screen_after_key(AppState::BaudPicking(baud_start(port)), start),
            );
            &&& first == TransitionText::StartScan(port)
            &&& pending(screen_after_scan(scanning, Some(found))).1 == TransitionText::Connect(
                port,
                found,
            )
        }),
{
}

/// A rate that is typed in and confirmed with Enter is the one that is connected at.
pub proof fn law_typed_rate_is_connected(port: Seq<char>, baud: u32, enter: Chord)
    requires
        baud > 0,
        plain(enter, Key::Enter),
    ensures
        pending(
            screen_after_key(
                AppState::BaudPicking(after_typing(baud_start(port), decimal(baud as nat))),
                enter,
            ),
        ).1 == TransitionText::Connect(port, baud),
{
    law_typed_rate_is_resolved(baud_start(port), baud, enter);
}

/// Where the scan finds no rate, the user is asked to type one.
pub proof fn law_fruitless_scan_leads_to_manual_entry(baud: BaudState)
    requires
        settled(AppState::BaudPicking(baud)),
        baud.phase is Scanning,
    ensures
        pending(screen_after_scan(AppState::BaudPicking(baud), None)) == (
            AppState::BaudPicking(
                BaudState { phase: PhaseState::Manual(Seq::empty()), ..baud },
            ),
            TransitionText::Stay,
        ),
{
}

/// On the port picker, a key press does what it does to the picker. Only Enter leads on, and only
/// where a port is highlighted.
pub proof fn law_keys_on_the_port_picker(picker: PickerState, chord: Chord)
    requires
        picker.chosen is None,
    ensures
        ({
            let (after, wanted) = pending(screen_after_key(AppState::PortPicking(picker), chord));
            let enters = chord == (Chord {
                key: Key::Enter,
                ctrl: false,
                other_modifier: false,
            }) && picker.selected < picker.ports.len();
            &&& enters ==> {
                &&& wanted is ShowBaudPicker
                &&& after is BaudPicking
                &&& after->BaudPicking_0.port == picker.ports[picker.selected as int].name
                &&& after->BaudPicking_0.phase is Prompt
                &&& !after->BaudPicking_0.wants_scan
                &&& after->BaudPicking_0.resolved is None
            }
            &&& !enters ==> {
                &&& wanted is Stay
                &&& after == AppState::PortPicking(picker_after(picker, chord))
            }
        }),
{
}

/// On the baud picker, a key press does what it does to the picker. A scan is started exactly when
/// the press asked for one, and a port is opened exactly when it brought a rate; both for the port
/// of the picker, and both once.
pub proof fn law_keys_on_the_baud_picker(baud: BaudState, chord: Chord)
    requires
        !baud.wants_scan,
        baud.resolved is None,
    ensures
        ({
            let (after, wanted) = pending(screen_after_key(AppState::BaudPicking(baud), chord));
            let next = baud_after(baud, chord);
            &&& after == AppState::BaudPicking(
                BaudState { wants_scan: false, resolved: None, ..next },
            )
            &&& next.wants_scan ==> wanted == TransitionText::StartScan(baud.port)
            &&& next.resolved is Some ==> wanted == TransitionText::Connect(
                baud.port,
                next.resolved->0,
            )
            &&& !next.wants_scan && next.resolved is None ==> wanted is Stay
        }),
{
}

/// The rate that a scan finds is connected at, on the port of the picker, however many scores came
/// before; a score by itself leads nowhere.
pub proof fn law_found_rate_is_connected(baud: BaudState, rate: u32, score: Binary, found: u32)
    requires
        !baud.wants_scan,
        baud.resolved is None,
        baud.phase is Scanning,
    ensures
        pending(screen_after_update(AppState::BaudPicking(baud), rate, score)) == (
            AppState::BaudPicking(baud_after_update(baud, rate, score)),
            TransitionText::Stay,
        ),
        pending(screen_after_scan(AppState::BaudPicking(baud), Some(found))) == (
            AppState::BaudPicking(BaudState { phase: PhaseState::Done(found), ..baud }),
            TransitionText::Connect(baud.port, found),
        ),
{
}

/// On the receive screen, the bytes that come in go to it, and neither they nor a key press lead
/// anywhere else.
pub proof fn law_receive_screen_stays(rx: RxState, chord: Chord, bytes: Seq<u8>)
    ensures
        pending(screen_after_key(AppState::Rx(rx), chord)) == (
            AppState::Rx(rx),
            TransitionText::Stay,
        ),
        pending(screen_after_bytes(AppState::Rx(rx), bytes)) == (
            AppState::Rx(rx_after(rx, bytes)),
            TransitionText::Stay,
        ),
{
}

/// Where nothing waits to be acted upon, a check of the transitions changes nothing.
pub proof fn law_settled_flow_stays(state: AppState)
    requires
        match state {
            AppState::PortPicking(picker) => picker.chosen is None,
            AppState::BaudPicking(baud) => !baud.wants_scan && baud.resolved is None,
            AppState::Rx(_) => true,
        },
    ensures
        settled(state),
        pending(state) == (state, TransitionText::Stay),
{
}

/// An opened port brings up the receive screen, for that port and rate and without lines; one that
/// cannot be opened leaves everything as it is, and what is told then gives the port, the rate and
/// the reason, all in full.
pub proof fn law_opening_shows_the_port(
    state: AppState,
    port: Seq<char>,
    baud: u32,
    reason: Seq<char>,
)
    ensures
        after_opening(state, port, baud, None) is Rx,
        after_opening(state, port, baud, None)->Rx_0.title == "portcall — "@ + port + " @ "@
            + decimal(baud as nat) + " baud"@,
        after_opening(state, port, baud, None)->Rx_0.received.lines.len() == 0,
        after_opening(state, port, baud, None)->Rx_0.received.partial.len() == 0,
        after_opening(state, port, baud, None)->Rx_0.line_count == 0,
        after_opening(state, port, baud, Some(reason)) == state,
        ({
            let text = open_error_text(port, baud, reason);
            let p = 22 + port.len() as int;
            let d = p + 3 + decimal(baud as nat).len();
            &&& text.take(22) == "error: failed to open "@
            &&& text.subrange(22, p) == port
            &&& text.subrange(p, p + 3) == " @ "@
            &&& text.subrange(p + 3, d) == decimal(baud as nat)
            &&& text.subrange(d, d + 2) == ": "@
            &&& text.skip(d + 2) == reason
        }),
{
    reveal_strlit("error: failed to open ");
    reveal_strlit(" @ ");
    reveal_strlit(": ");
    let text = open_error_text(port, baud, reason);
    let p = 22 + port.len() as int;
    let d = p + 3 + decimal(baud as nat).len();
    assert(text.take(22) =~= "error: failed to open "@);
    assert(text.subrange(22, p) =~= port);
    assert(text.subrange(p, p + 3) =~= " @ "@);
    assert(text.subrange(p + 3, d) =~= decimal(baud as nat));
    assert(text.subrange(d, d + 2) =~= ": "@);
    assert(text.skip(d + 2) =~= reason);
}

/// Messages of a scan that the baud picker no longer shows lead nowhere and change nothing.
pub proof fn law_late_scan_messages_lead_nowhere(
    baud: BaudState,
    rate: u32,
    score: Binary,
    found: Option<u32>,
)
    requires
        !baud.wants_scan,
        baud.resolved is None,
        !(baud.phase is Scanning),
    ensures
        pending(screen_after_update(AppState::BaudPicking(baud), rate, score)) == (
            AppState::BaudPicking(baud),
            TransitionText::Stay,
        ),
        pending(screen_after_scan(AppState::BaudPicking(baud), found)) == (
            AppState::BaudPicking(baud),
            TransitionText::Stay,
        ),
{
}

/// A transition and a screen are seen with all that they hold.
pub proof fn law_transition_is_seen_as_it_is(
    port: String,
    baud: u32,
    picker: PortPickerScreen,
    search: BaudPickerScreen,
    rx: RxScreen,
)
    ensures
        Transition::Stay@ is Stay,
        Transition::ShowBaudPicker@ is ShowBaudPicker,
        Transition::StartScan(port)@ == TransitionText::StartScan(port@),
        Transition::Connect(port, baud)@ == TransitionText::Connect(port@, baud),
        AppScreen::PortPicking(picker)@ == AppState::PortPicking(picker@),
        AppScreen::BaudPicking(search)@ == AppState::BaudPicking(search@),
        AppScreen::Rx(rx)@ == AppState::Rx(rx@),
{
}

} // verus!
