//! The screen on which the user picks a port.

use vstd::prelude::*;
use vstd::string::*;

use crate::input::{plain, quits, Chord, Key};
use crate::ports::{entry_texts, EntryText, PortEntry};
use crate::text::{pad_right, padded_right};

verus! {

/// Width of the column of port names.
pub const NAME_WIDTH: usize = 22;

/// What the port picker holds.
#[verifier::ext_equal]
pub struct PickerState {
    pub ports: Seq<EntryText>,
    /// The row that is highlighted.
    pub selected: nat,
    /// The port that was chosen and not yet acted upon.
    pub chosen: Option<Seq<char>>,
}

/// What the port picker wants done about a key press.
pub enum PickerReaction {
    /// End the program.
    Quit,
    /// Bring this row into view, and draw the rows anew.
    Reveal(usize),
    /// Nothing more.
    Handled,
    /// Let the widgets of the screen have the key.
    Delegate,
}

/// The row above, or the same one at the top.
pub open spec fn row_above(selected: nat) -> nat {
    if selected == 0 {
        0
    } else {
        (selected - 1) as nat
    }
}

/// The row below, or the last one.
pub open spec fn row_below(selected: nat, rows: nat) -> nat {
    if selected + 1 < rows {
        selected + 1
    } else {
        (rows - 1) as nat
    }
}

/// The name in the highlighted row.
pub open spec fn highlighted_name(state: PickerState) -> Option<Seq<char>> {
    if state.selected < state.ports.len() {
        Some(state.ports[state.selected as int].name)
    } else {
        None
    }
}

/// What the picker holds after a key press.
pub open spec fn picker_after(state: PickerState, chord: Chord) -> PickerState {
    if quits(chord) {
        state
    } else if plain(chord, Key::Up) && state.ports.len() > 0 {
        PickerState { selected: row_above(state.selected), ..state }
    } else if plain(chord, Key::Down) && state.ports.len() > 0 {
        PickerState { selected: row_below(state.selected, state.ports.len()), ..state }
    } else if plain(chord, Key::Enter) {
        PickerState { chosen: highlighted_name(state), ..state }
    } else {
        state
    }
}

/// What the picker wants done about a key press.
pub open spec fn picker_reaction(state: PickerState, chord: Chord) -> PickerReaction {
    if quits(chord) {
        PickerReaction::Quit
    } else if plain(chord, Key::Up) || plain(chord, Key::Down) {
        if state.ports.len() == 0 {
            PickerReaction::Handled
        } else {
            PickerReaction::Reveal(picker_after(state, chord).selected as usize)
        }
    } else if plain(chord, Key::Enter) {
        PickerReaction::Handled
    } else {
        PickerReaction::Delegate
    }
}

/// A row of the list: the highlighted one is marked.
pub open spec fn row_text(entry: EntryText, highlighted: bool) -> Seq<char> {
    (if highlighted {
        "> "@
    } else {
        "  "@
    }) + padded_right(entry.name, NAME_WIDTH as nat) + "  "@ + entry.desc
}

/// The screen that lets the user pick a port with the arrow keys and Enter.
pub struct PortPickerScreen {
    ports: Vec<PortEntry>,
    selected: usize,
    selected_port: Option<String>,
}

impl View for PortPickerScreen {
    type V = PickerState;

    closed spec fn view(&self) -> PickerState {
        PickerState {
            ports: entry_texts(self.ports@),
            selected: self.selected as nat,
            chosen: match self.selected_port {
                Some(port) => Some(port@),
                None => None,
            },
        }
    }
}

impl PortPickerScreen {
    /// The picker for `ports`, with the first one highlighted.
    pub fn new(ports: Vec<PortEntry>) -> (out: Self)
        ensures
            out@ == (PickerState { ports: entry_texts(ports@), selected: 0, chosen: None }),
    {
        PortPickerScreen { ports, selected: 0, selected_port: None }
    }

    /// The text of the title bar.
    pub fn title() -> (out: &'static str)
        ensures
            out@ == "portcall — select a port"@,
    {
        "portcall — select a port"
    }

    /// The text of the footer.
    pub fn footer() -> (out: &'static str)
        ensures
            out@ == "↑↓ navigate   Enter select   q quit"@,
    {
        "↑↓ navigate   Enter select   q quit"
    }

    /// How many ports there are to pick from.
    pub fn port_count(&self) -> (out: usize)
        ensures
            out == self@.ports.len(),
    {
        self.ports.len()
    }

    /// A row of the list.
    pub fn row(&self, index: usize) -> (out: Option<String>)
        ensures
            match out {
                Some(text) => {
                    &&& index < self@.ports.len()
                    &&& text@ == row_text(self@.ports[index as int], index == self@.selected)
                },
                None => index >= self@.ports.len(),
            },
    {
        if index >= self.ports.len() {
            return None;
        }
        let entry = &self.ports[index];
        let mut out = if index == self.selected {
            "> ".to_owned()
        } else {
            "  ".to_owned()
        };
        out.append(pad_right(entry.name.as_str(), NAME_WIDTH).as_str());
        out.append("  ");
        out.append(entry.desc.as_str());
        Some(out)
    }

    /// Takes a key press.
    pub fn on_input(&mut self, chord: Chord) -> (out: PickerReaction)
        ensures
            final(self)@ == picker_after(old(self)@, chord),
            out == picker_reaction(old(self)@, chord),
    {
        if chord.is_quit() {
            return PickerReaction::Quit;
        }
        let up: bool = chord.is_plain(Key::Up);
        if up || chord.is_plain(Key::Down) {
            let rows: usize = self.ports.len();
            if rows == 0 {
                return PickerReaction::Handled;
            }
            if up {
                if self.selected > 0 {
                    self.selected = self.selected - 1;
                }
            } else if self.selected < rows - 1 {
                self.selected = self.selected + 1;
            } else {
                self.selected = rows - 1;
            }
            return PickerReaction::Reveal(self.selected);
        }
        if chord.is_plain(Key::Enter) {
            if self.selected < self.ports.len() {
                self.selected_port = Some(self.ports[self.selected].name.clone());
            } else {
                self.selected_port = None;
            }
            return PickerReaction::Handled;
        }
        PickerReaction::Delegate
    }

    /// Hands over the port that was chosen, if one was.
    pub fn take_selected(&mut self) -> (out: Option<String>)
        ensures
            final(self)@ == (PickerState { chosen: None, ..old(self)@ }),
            match out {
                Some(port) => old(self)@.chosen == Some(port@),
                None => old(self)@.chosen is None,
            },
    {
        self.selected_port.take()
    }
}

/// Whether the highlight is on a row, if there are rows.
pub open spec fn highlight_in_range(state: PickerState) -> bool {
    state.selected < state.ports.len() || (state.ports.len() == 0 && state.selected == 0)
}

/// The highlight never leaves the list, and no key press changes the list.
pub proof fn law_highlight_stays_in_range(state: PickerState, chord: Chord)
    requires
        highlight_in_range(state),
    ensures
        highlight_in_range(picker_after(state, chord)),
        picker_after(state, chord).ports == state.ports,
{
}

/// Enter on a list of ports chooses the one that is highlighted.
pub proof fn law_enter_chooses_highlighted(state: PickerState, chord: Chord)
    requires
        highlight_in_range(state),
        state.ports.len() > 0,
        plain(chord, Key::Enter),
    ensures
        picker_after(state, chord).chosen == Some(state.ports[state.selected as int].name),
{
}

/// Away from the ends of the list, Up takes back Down, and Down takes back Up.
pub proof fn law_up_and_down_undo_each_other(state: PickerState, up: Chord, down: Chord)
    requires
        plain(up, Key::Up),
        plain(down, Key::Down),
        highlight_in_range(state),
    ensures
        state.selected + 1 < state.ports.len() ==> picker_after(picker_after(state, down), up)
            == state,
        0 < state.selected ==> picker_after(picker_after(state, up), down) == state,
{
}

/// Down goes to the next row, and stays on the last one; Up goes to the row before, and stays on
/// the first one. The row that is then highlighted is the one brought into view, and nothing else
/// changes.
pub proof fn law_arrows_move_the_highlight(state: PickerState, chord: Chord)
    requires
        state.selected < state.ports.len() <= usize::MAX,
        !chord.ctrl && !chord.other_modifier,
        chord.key == Key::Down || chord.key == Key::Up,
    ensures
        ({
            let after = picker_after(state, chord);
            &&& chord.key == Key::Down && state.selected + 1 < state.ports.len()
                ==> after.selected == state.selected + 1
            &&& chord.key == Key::Down && state.selected + 1 == state.ports.len()
                ==> after.selected == state.selected
            &&& chord.key == Key::Up && state.selected > 0 ==> after.selected + 1
                == state.selected
            &&& chord.key == Key::Up && state.selected == 0 ==> after.selected == 0
            &&& after.ports == state.ports
            &&& after.chosen == state.chosen
            &&& picker_reaction(state, chord) is Reveal
            &&& picker_reaction(state, chord)->Reveal_0 == after.selected
        }),
{
}

/// What the picker holds after a key was pressed `times` times.
pub open spec fn after_presses(state: PickerState, chord: Chord, times: nat) -> PickerState
    decreases times,
{
    if times == 0 {
        state
    } else {
        picker_after(after_presses(state, chord, (times - 1) as nat), chord)
    }
}

/// Every row can be reached from the first one, by pressing Down as many times as there are rows
/// above it, and the first one again from there by as many presses of Up.
pub proof fn law_every_row_can_be_reached(
    state: PickerState,
    down: Chord,
    up: Chord,
    row: nat,
)
    requires
        state.selected == 0,
        row < state.ports.len(),
        down == (Chord { key: Key::Down, ctrl: false, other_modifier: false }),
        up == (Chord { key: Key::Up, ctrl: false, other_modifier: false }),
    ensures
        after_presses(state, down, row) == (PickerState { selected: row, ..state }),
        after_presses(PickerState { selected: row, ..state }, up, row) == state,
    decreases row,
{
    if row > 0 {
        law_every_row_can_be_reached(state, down, up, (row - 1) as nat);
        lemma_presses_of_up(PickerState { selected: row, ..state }, up, row);
    }
}

/// Each press of Up goes up one row.
proof fn lemma_presses_of_up(state: PickerState, up: Chord, times: nat)
    requires
        times <= state.selected < state.ports.len(),
        up == (Chord { key: Key::Up, ctrl: false, other_modifier: false }),
    ensures
        after_presses(state, up, times) == (PickerState {
            selected: (state.selected - times) as nat,
            ..state
        }),
    decreases times,
{
    if times > 0 {
        lemma_presses_of_up(state, up, (times - 1) as nat);
    }
}

/// Enter chooses the name in the highlighted row, whichever row that is and however long the list,
/// and moves nothing. Any other key but the arrows changes nothing.
pub proof fn law_only_enter_chooses(state: PickerState, chord: Chord)
    requires
        state.selected < state.ports.len(),
    ensures
        chord == (Chord { key: Key::Enter, ctrl: false, other_modifier: false }) ==> {
            &&& picker_after(state, chord) == (PickerState {
                chosen: Some(state.ports[state.selected as int].name),
                ..state
            })
            &&& picker_reaction(state, chord) is Handled
        },
        chord.ctrl || chord.other_modifier || !(chord.key is Enter || chord.key is Up
            || chord.key is Down) ==> {
            &&& picker_after(state, chord) == state
            &&& picker_reaction(state, chord) is Quit || picker_reaction(state, chord) is Delegate
        },
        picker_reaction(state, chord) is Quit <==> {
            ||| chord == (Chord { key: Key::Char('q'), ctrl: false, other_modifier: false })
            ||| chord == (Chord { key: Key::Char('c'), ctrl: true, other_modifier: false })
        },
{
}

/// On a list without ports, no key press does anything but quit.
pub proof fn law_nothing_to_choose_from(state: PickerState, chord: Chord)
    requires
        state.ports.len() == 0,
        state.chosen is None,
    ensures
        picker_after(state, chord) == state,
        !(picker_reaction(state, chord) is Reveal),
{
}

/// A row begins with a mark, or with blanks where it is not highlighted; then comes the name, in
/// full, and at its end the description, in full. Between them are spaces: two, and as many more
/// as a name of fewer than 22 characters leaves of its column.
pub proof fn law_row_shows_name_and_description(entry: EntryText, highlighted: bool)
    ensures
        ({
            let row = row_text(entry, highlighted);
            let end = if entry.name.len() < 22 {
                26int
            } else {
                entry.name.len() as int + 4
            };
            &&& row.len() == end + entry.desc.len()
            &&& row[0] == (if highlighted {
                '>'
            } else {
                ' '
            })
            &&& row[1] == ' '
            &&& row.subrange(2, 2 + entry.name.len() as int) == entry.name
            &&& forall|i: int| 2 + entry.name.len() <= i < end ==> #[trigger] row[i] == ' '
            &&& row.skip(end) == entry.desc
        }),
{
    reveal_strlit("> ");
    reveal_strlit("  ");
    let row = row_text(entry, highlighted);
    let end = if entry.name.len() < 22 {
        26int
    } else {
        entry.name.len() as int + 4
    };
    assert(row.subrange(2, 2 + entry.name.len() as int) =~= entry.name);
    assert(row.skip(end) =~= entry.desc);
}

} // verus!
