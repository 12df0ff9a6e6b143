//! The screen that shows the lines as they come in.

use vstd::prelude::*;
use vstd::string::*;

use crate::input::{quits, Chord};
use crate::lines::{
    after_bytes, broken_lines_marked, clean_line, finished_lines, law_two_chunks_as_one,
    nothing_received, received_clean, Received, RxLines,
};
use crate::text::{decimal, write_decimal};

verus! {

/// What the receive screen holds.
#[verifier::ext_equal]
pub struct RxState {
    pub title: Seq<char>,
    pub received: Received,
    /// The number of lines that the status bar tells.
    pub line_count: nat,
}

/// What a received chunk changes on the screen.
pub struct RxUpdate {
    /// How many rows the list has now.
    pub item_count: usize,
    /// The row to bring into view: the latest line.
    pub reveal: Option<usize>,
    /// The new text of the status bar, if it changes.
    pub status: Option<String>,
}

/// What the receive screen wants done about a key press.
pub enum RxReaction {
    /// End the program.
    Quit,
    /// Let the widgets of the screen have the key.
    Delegate,
}

/// The title bar of the receive screen.
pub open spec fn rx_title(port: Seq<char>, baud: u32) -> Seq<char> {
    "portcall — "@ + port + " @ "@ + decimal(baud as nat) + " baud"@
}

/// The receive screen at its start.
pub open spec fn rx_start(port: Seq<char>, baud: u32) -> RxState {
    RxState {
        title: rx_title(port, baud),
        received: nothing_received(),
        line_count: 0,
    }
}

/// The status bar for a number of lines.
pub open spec fn status_text(count: nat) -> Seq<char> {
    decimal(count) + " line"@ + (if count == 1 {
        ""@
    } else {
        "s"@
    }) + "   ↑↓ scroll   q quit"@
}

/// What the screen holds once `bytes` have come in.
pub open spec fn rx_after(state: RxState, bytes: Seq<u8>) -> RxState {
    let received = after_bytes(state.received, bytes);
    RxState { title: state.title, received, line_count: received.lines.len() }
}

/// Writes the status bar for a number of lines.
pub fn write_status(count: usize) -> (out: String)
    ensures
        out@ == status_text(count as nat),
{
    let mut out = write_decimal(count as u64);
    out.append(" line");
    if count == 1 {
        out.append("");
    } else {
        out.append("s");
    }
    out.append("   ↑↓ scroll   q quit");
    out
}

/// The screen that streams incoming serial data.
pub struct RxScreen {
    title: String,
    lines: RxLines,
    line_count: usize,
}

impl View for RxScreen {
    type V = RxState;

    closed spec fn view(&self) -> RxState {
        RxState {
            title: self.title@,
            received: self.lines@,
            line_count: self.line_count as nat,
        }
    }
}

impl RxScreen {
    /// The screen for `port` at `baud`, with nothing received.
    pub fn new(port: &str, baud: u32) -> (out: Self)
        ensures
            out@ == rx_start(port@, baud),
    {
        let mut title = "portcall — ".to_owned();
        title.append(port);
        title.append(" @ ");
        title.append(write_decimal(baud as u64).as_str());
        title.append(" baud");
        RxScreen { title, lines: RxLines::default(), line_count: 0 }
    }

    /// The text of the title bar.
    pub fn title(&self) -> (out: String)
        ensures
            out@ == self@.title,
    {
        self.title.clone()
    }

    /// The text of the status bar.
    pub fn status(&self) -> (out: String)
        ensures
            out@ == status_text(self@.line_count),
    {
        write_status(self.line_count)
    }

    /// The text of a line.
    pub fn line(&self, index: usize) -> (out: Option<String>)
        ensures
            match out {
                Some(text) => {
                    &&& index < self@.received.lines.len()
                    &&& text@ == self@.received.lines[index as int]
                    &&& clean_line(text@)
                },
                None => index >= self@.received.lines.len(),
            },
    {
        self.lines.line(index)
    }

    /// Takes in a received chunk: the list follows the lines, the viewport stays pinned to the
    /// latest one, and the status bar changes when the number of lines does.
    pub fn append(&mut self, bytes: &[u8]) -> (out: RxUpdate)
        ensures
            final(self)@ == rx_after(old(self)@, bytes@),
            received_clean(final(self)@.received),
            broken_lines_marked(
                finished_lines(old(self)@.received.partial + bytes@),
                final(self)@.received.lines.skip(old(self)@.received.lines.len() as int),
            ),
            out.item_count == final(self)@.received.lines.len(),
            out.reveal == (if out.item_count > 0 {
                Some((out.item_count - 1) as usize)
            } else {
                None
            }),
            match out.status {
                Some(text) => {
                    &&& out.item_count != old(self)@.line_count
                    &&& text@ == status_text(out.item_count as nat)
                },
                None => out.item_count == old(self)@.line_count,
            },
    {
        self.lines.feed(bytes);
        let count: usize = self.lines.line_count();
        let reveal: Option<usize> = if count > 0 {
            Some(count - 1)
        } else {
            None
        };
        let status = if count != self.line_count {
            self.line_count = count;
            Some(write_status(count))
        } else {
            None
        };
        RxUpdate { item_count: count, reveal, status }
    }

    /// Takes a key press.
    pub fn on_input(&self, chord: Chord) -> (out: RxReaction)
        ensures
            out == (if quits(chord) {
                RxReaction::Quit
            } else {
                RxReaction::Delegate
            }),
    {
        if chord.is_quit() {
            RxReaction::Quit
        } else {
            RxReaction::Delegate
        }
    }
}

/// The status bar always tells the number of lines: it does at the start, and it does after a
/// chunk if it did before.
pub proof fn law_status_tells_the_lines(state: RxState, bytes: Seq<u8>, port: Seq<char>, baud: u32)
    ensures
        rx_start(port, baud).line_count == rx_start(port, baud).received.lines.len(),
        rx_after(state, bytes).line_count == rx_after(state, bytes).received.lines.len(),
{
}

/// The title gives the port, in full, and the rate in decimal.
pub proof fn law_title_gives_port_and_rate(port: Seq<char>, baud: u32)
    ensures
        ({
            let title = rx_start(port, baud).title;
            let p = 11 + port.len() as int;
            let digits = decimal(baud as nat);
            &&& title.take(11) == "portcall — "@
            &&& title.subrange(11, p) == port
            &&& title.subrange(p, p + 3) == " @ "@
            &&& title.subrange(p + 3, p + 3 + digits.len()) == digits
            &&& title.skip(p + 3 + digits.len()) == " baud"@
        }),
{
    reveal_strlit("portcall — ");
    reveal_strlit(" @ ");
    let title = rx_start(port, baud).title;
    let p = 11 + port.len() as int;
    let digits = decimal(baud as nat);
    assert(title.take(11) =~= "portcall — "@);
    assert(title.subrange(11, p) =~= port);
    assert(title.subrange(p, p + 3) =~= " @ "@);
    assert(title.subrange(p + 3, p + 3 + digits.len()) =~= digits);
    assert(title.skip(p + 3 + digits.len()) =~= " baud"@);
}

/// The status bar begins with the number of lines in decimal; what follows is the same for every
/// number but one, of which there is one line, not lines.
pub proof fn law_status_gives_the_number(count: nat)
    ensures
        status_text(count).take(decimal(count).len() as int) == decimal(count),
        status_text(count).skip(decimal(count).len() as int) == (if count == 1 {
            " line   ↑↓ scroll   q quit"@
        } else {
            " lines   ↑↓ scroll   q quit"@
        }),
{
    reveal_strlit(" line");
    reveal_strlit("");
    reveal_strlit("s");
    reveal_strlit("   ↑↓ scroll   q quit");
    reveal_strlit(" line   ↑↓ scroll   q quit");
    reveal_strlit(" lines   ↑↓ scroll   q quit");
    let text = status_text(count);
    let len = decimal(count).len() as int;
    assert(text.take(len) =~= decimal(count));
    if count == 1 {
        assert(text.skip(len) =~= " line   ↑↓ scroll   q quit"@);
    } else {
        assert(text.skip(len) =~= " lines   ↑↓ scroll   q quit"@);
    }
}

/// The screen begins without lines, and then shows those that a line buffer makes of the bytes,
/// whatever chunks they come in; the title stays.
pub proof fn law_screen_shows_the_lines_of_the_bytes(
    port: Seq<char>,
    baud: u32,
    state: RxState,
    first: Seq<u8>,
    second: Seq<u8>,
)
    ensures
        rx_start(port, baud).received.lines.len() == 0,
        rx_start(port, baud).received.partial.len() == 0,
        rx_start(port, baud).line_count == 0,
        rx_after(state, first).title == state.title,
        rx_after(state, first).received == after_bytes(state.received, first),
        rx_after(state, first).line_count == after_bytes(state.received, first).lines.len(),
        rx_after(rx_after(state, first), second) == rx_after(state, first + second),
{
    law_two_chunks_as_one(state.received, first, second);
}

} // verus!
