//! Serial ports: what is known of them, which are worth listing, and how they are described.

use vstd::prelude::*;
use vstd::string::*;

use crate::text::{
    decimal, hex4, law_trimming_takes_whitespace_only, law_trimming_uncovers_the_text, same_text,
    starts_with, strip_prefix, trim, trimmed, whitespace, write_decimal, write_hex4,
};

verus! {

/// What a USB port says of its device.
pub struct UsbPortInfo {
    pub vid: u16,
    pub pid: u16,
    pub manufacturer: Option<String>,
    pub product: Option<String>,
}

/// How a port is attached.
pub enum PortType {
    UsbPort(UsbPortInfo),
    BluetoothPort,
    PciPort,
    Unknown,
}

/// A port that the system has.
pub struct PortInfo {
    /// OS path to the port (e.g. `/dev/ttyACM0`, `COM3`).
    pub port_name: String,
    pub port_type: PortType,
}

/// A serial port with a human-readable description, for the port picker's list.
pub struct PortEntry {
    /// OS path to the port.
    pub name: String,
    /// One-line description: type, and what a USB port says of its device.
    pub desc: String,
}

/// The two texts of a port entry.
#[verifier::ext_equal]
pub struct EntryText {
    pub name: Seq<char>,
    pub desc: Seq<char>,
}

impl View for PortEntry {
    type V = EntryText;

    open spec fn view(&self) -> EntryText {
        EntryText { name: self.name@, desc: self.desc@ }
    }
}

/// The texts of port entries.
pub open spec fn entry_texts(entries: Seq<PortEntry>) -> Seq<EntryText> {
    entries.map_values(|entry: PortEntry| entry@)
}

/// What to show for a text that may be missing.
pub open spec fn text_or(text: Option<String>, fallback: Seq<char>) -> Seq<char> {
    match text {
        Some(text) => text@,
        None => fallback,
    }
}

/// The description of a USB port: vendor and product, then the two ids in hexadecimal.
pub open spec fn usb_description(info: UsbPortInfo) -> Seq<char> {
    "USB  "@ + text_or(info.manufacturer, "unknown vendor"@) + " — "@ + text_or(
        info.product,
        "unknown product"@,
    ) + "  (VID:PID "@ + hex4(info.vid) + ":"@ + hex4(info.pid) + ")"@
}

/// The description of a port.
pub open spec fn description(port_type: PortType) -> Seq<char> {
    match port_type {
        PortType::UsbPort(info) => usb_description(info),
        PortType::BluetoothPort => "Bluetooth"@,
        PortType::PciPort => "PCI"@,
        PortType::Unknown => "Unknown"@,
    }
}

/// Whether a port is a legacy UART slot, of which the kernel tells the model in a file.
pub open spec fn uart_slot(port: PortInfo) -> bool {
    &&& port.port_type is Unknown
    &&& "/dev/"@.is_prefix_of(port.port_name@)
    &&& "ttyS"@.is_prefix_of(port.port_name@.skip("/dev/"@.len() as int))
}

/// The file in which the kernel tells the UART model of a slot.
pub open spec fn uart_type_path(port: PortInfo) -> Seq<char> {
    "/sys/class/tty/"@ + port.port_name@.skip("/dev/"@.len() as int) + "/type"@
}

/// Whether a port is a UART slot without hardware, given what its type file held, if it could
/// be read. Model `0` stands for no hardware.
pub open spec fn phantom(port: PortInfo, type_file: Option<String>) -> bool {
    match type_file {
        Some(contents) => uart_slot(port) && trimmed(contents@) == "0"@,
        None => false,
    }
}

/// The entry of a port.
pub open spec fn entry_of(port: PortInfo) -> EntryText {
    EntryText { name: port.port_name@, desc: description(port.port_type) }
}

/// The entries of the ports that are listed, in their order.
pub open spec fn listed(
    ports: Seq<PortInfo>,
    type_files: Seq<Option<String>>,
    show_all: bool,
) -> Seq<EntryText>
    decreases ports.len(),
{
    if ports.len() == 0 {
        Seq::empty()
    } else {
        let before = listed(ports.drop_last(), type_files.drop_last(), show_all);
        let port = ports.last();
        if show_all || !phantom(port, type_files.last()) {
            before.push(entry_of(port))
        } else {
            before
        }
    }
}

/// What came of the search for ports.
pub enum Discovery {
    /// The system has no ports.
    NoPorts,
    /// All ports are phantoms, so many of them.
    OnlyPhantoms(usize),
    /// The ports to pick from; there is one at least.
    Ports(Vec<PortEntry>),
}

/// Formats USB port metadata: vendor/product strings and VID:PID.
pub fn describe_usb(info: &UsbPortInfo) -> (out: String)
    ensures
        out@ == usb_description(*info),
{
    let mut out = "USB  ".to_owned();
    match &info.manufacturer {
        Some(manufacturer) => out.append(manufacturer.as_str()),
        None => out.append("unknown vendor"),
    }
    out.append(" — ");
    match &info.product {
        Some(product) => out.append(product.as_str()),
        None => out.append("unknown product"),
    }
    out.append("  (VID:PID ");
    out.append(write_hex4(info.vid).as_str());
    out.append(":");
    out.append(write_hex4(info.pid).as_str());
    out.append(")");
    out
}

/// One-line, human-readable description of a port type.
pub fn describe(port_type: &PortType) -> (out: String)
    ensures
        out@ == description(*port_type),
{
    match port_type {
        PortType::UsbPort(info) => describe_usb(info),
        PortType::BluetoothPort => "Bluetooth".to_owned(),
        PortType::PciPort => "PCI".to_owned(),
        PortType::Unknown => "Unknown".to_owned(),
    }
}

/// The file that tells whether `port` is a phantom, if there is one to ask.
///
/// Linux publishes each `/dev/ttySN` slot's UART model in `/sys/class/tty/ttySN/type`. Ports of
/// a known type (USB, Bluetooth, PCI) are never phantoms.
pub fn type_file_path(port: &PortInfo) -> (out: Option<String>)
    ensures
        match out {
            Some(path) => uart_slot(*port) && path@ == uart_type_path(*port),
            None => !uart_slot(*port),
        },
{
    match &port.port_type {
        PortType::Unknown => {},
        _ => {
            return None;
        },
    }
    let name = match strip_prefix(port.port_name.as_str(), "/dev/") {
        Some(name) => name,
        None => {
            return None;
        },
    };
    if !starts_with(name, "ttyS") {
        return None;
    }
    let mut path = "/sys/class/tty/".to_owned();
    path.append(name);
    path.append("/type");
    Some(path)
}

/// Returns `true` if `port` is a phantom legacy UART slot that the kernel always exposes, even
/// with no chip behind it. `type_file` is what its type file held, if it could be read.
///
/// Fails open: a port that cannot be positively identified as a phantom is none.
pub fn is_phantom(port: &PortInfo, type_file: &Option<String>) -> (out: bool)
    ensures
        out == phantom(*port, *type_file),
{
    match type_file {
        Some(contents) => {
            if type_file_path(port).is_none() {
                false
            } else {
                same_text(trim(contents.as_str()), "0")
            }
        },
        None => false,
    }
}

/// Picks the ports to list: all that are no phantoms, or all of them.
///
/// `type_files` holds, for each port, what its type file held, if it could be read.
pub fn discover(ports: &[PortInfo], type_files: &[Option<String>], show_all: bool) -> (out:
    Discovery)
    requires
        ports@.len() == type_files@.len(),
    ensures
        match out {
            Discovery::NoPorts => ports@.len() == 0,
            Discovery::OnlyPhantoms(count) => {
                &&& ports@.len() > 0
                &&& count == ports@.len()
                &&& listed(ports@, type_files@, show_all).len() == 0
            },
            Discovery::Ports(entries) => {
                &&& entries@.len() > 0
                &&& entry_texts(entries@) == listed(ports@, type_files@, show_all)
            },
        },
{
    let mut entries: Vec<PortEntry> = Vec::new();
    let mut i: usize = 0;
    assert(entry_texts(entries@) =~= listed(ports@.take(0), type_files@.take(0), show_all));
    while i < ports.len()
        invariant
            i <= ports@.len(),
            ports@.len() == type_files@.len(),
            entry_texts(entries@) == listed(
                ports@.take(i as int),
                type_files@.take(i as int),
                show_all,
            ),
        decreases ports@.len() - i,
    {
        let port = &ports[i];
        assert(ports@.take(i + 1).drop_last() =~= ports@.take(i as int));
        assert(type_files@.take(i + 1).drop_last() =~= type_files@.take(i as int));
        if show_all || !is_phantom(port, &type_files[i]) {
            let ghost before = entries@;
            let entry = PortEntry { name: port.port_name.clone(), desc: describe(&port.port_type) };
            entries.push(entry);
            assert(entry_texts(entries@) =~= entry_texts(before).push(entry@));
        }
        i = i + 1;
    }
    assert(ports@.take(i as int) =~= ports@);
    assert(type_files@.take(i as int) =~= type_files@);
    assert(entry_texts(entries@).len() == entries@.len());
    if ports.len() == 0 {
        Discovery::NoPorts
    } else if entries.len() == 0 {
        Discovery::OnlyPhantoms(ports.len())
    } else {
        Discovery::Ports(entries)
    }
}

/// The list for a port that was named on the command line: that port alone.
pub fn direct_ports(path: String) -> (out: Vec<PortEntry>)
    ensures
        entry_texts(out@) == seq![EntryText { name: path@, desc: "direct path"@ }],
{
    let mut out: Vec<PortEntry> = Vec::new();
    let ghost name = path@;
    out.push(PortEntry { name: path, desc: "direct path".to_owned() });
    assert(entry_texts(out@) =~= seq![EntryText { name, desc: "direct path"@ }]);
    out
}

impl Discovery {
    /// What to tell the user where there is nothing to pick from.
    pub open spec fn message_text(self) -> Option<Seq<char>> {
        match self {
            Discovery::NoPorts => Some("No serial ports found."@),
            Discovery::OnlyPhantoms(count) => Some(
                "No usable serial ports found ("@ + decimal(count as nat)
                    + " phantom slot(s) hidden).\nPlug in a device, or pass --all to see everything."@,
            ),
            Discovery::Ports(_) => None,
        }
    }

    /// What to tell the user where there is nothing to pick from.
    pub fn message(&self) -> (out: Option<String>)
        ensures
            match out {
                Some(message) => self.message_text() == Some(message@),
                None => self.message_text() is None,
            },
    {
        match self {
            Discovery::NoPorts => Some("No serial ports found.".to_owned()),
            Discovery::OnlyPhantoms(count) => {
                let mut out = "No usable serial ports found (".to_owned();
                out.append(write_decimal(*count as u64).as_str());
                out.append(
                    " phantom slot(s) hidden).\nPlug in a device, or pass --all to see everything.",
                );
                Some(out)
            },
            Discovery::Ports(_) => None,
        }
    }
}

/// With all ports asked for, every port is listed, in its place.
pub proof fn law_show_all_lists_all(ports: Seq<PortInfo>, type_files: Seq<Option<String>>)
    requires
        ports.len() == type_files.len(),
    ensures
        listed(ports, type_files, true) == ports.map_values(|port: PortInfo| entry_of(port)),
    decreases ports.len(),
{
    let entries = ports.map_values(|port: PortInfo| entry_of(port));
    if ports.len() > 0 {
        let fewer = ports.drop_last();
        law_show_all_lists_all(fewer, type_files.drop_last());
        assert(entries =~= fewer.map_values(|port: PortInfo| entry_of(port)).push(
            entry_of(ports.last()),
        ));
    } else {
        assert(entries =~= Seq::empty());
    }
}

/// Without all ports asked for, no phantom is listed: every entry is that of another port.
pub proof fn law_phantoms_are_hidden(
    ports: Seq<PortInfo>,
    type_files: Seq<Option<String>>,
    at: int,
)
    requires
        ports.len() == type_files.len(),
        0 <= at < listed(ports, type_files, false).len(),
    ensures
        exists|i: int|
            0 <= i < ports.len() && !phantom(#[trigger] ports[i], type_files[i]) && listed(
                ports,
                type_files,
                false,
            )[at] == entry_of(ports[i]),
    decreases ports.len(),
{
    let before = listed(ports.drop_last(), type_files.drop_last(), false);
    if at < before.len() {
        law_phantoms_are_hidden(ports.drop_last(), type_files.drop_last(), at);
        let fewer = ports.drop_last();
        let i = choose|i: int|
            0 <= i < fewer.len() && !phantom(#[trigger] fewer[i], type_files.drop_last()[i])
                && before[at] == entry_of(fewer[i]);
        assert(fewer[i] == ports[i]);
        assert(!phantom(ports[i], type_files[i]));
    } else {
        assert(!phantom(ports[ports.len() - 1], type_files[ports.len() - 1]));
    }
}

/// Only legacy slots are ever hidden: any other port is no phantom, whatever a file says, and
/// neither is one whose file could not be read.
pub proof fn law_fails_open(port: PortInfo, type_file: Option<String>)
    requires
        !uart_slot(port) || type_file is None,
    ensures
        !phantom(port, type_file),
{
}

/// A port that is no phantom is listed.
pub proof fn law_real_ports_are_listed(
    ports: Seq<PortInfo>,
    type_files: Seq<Option<String>>,
    show_all: bool,
    index: int,
)
    requires
        ports.len() == type_files.len(),
        0 <= index < ports.len(),
        !phantom(ports[index], type_files[index]),
    ensures
        listed(ports, type_files, show_all).contains(entry_of(ports[index])),
    decreases ports.len(),
{
    let all = listed(ports, type_files, show_all);
    let before = listed(ports.drop_last(), type_files.drop_last(), show_all);
    let entry = entry_of(ports[index]);
    if index == ports.len() - 1 {
        assert(all.last() == entry);
    } else {
        law_real_ports_are_listed(ports.drop_last(), type_files.drop_last(), show_all, index);
        let at = choose|at: int| 0 <= at < before.len() && before[at] == entry;
        assert(all[at] == entry);
    }
}

/// Whether `text` is whitespace throughout.
pub open spec fn blank(text: Seq<char>) -> bool {
    forall|i: int| 0 <= i < text.len() ==> whitespace(#[trigger] text[i])
}

/// A slot begins with `/dev/ttyS`, whatever follows, and its type file is named after it.
proof fn lemma_slot_name(port: PortInfo, rest: Seq<char>)
    requires
        port.port_name@ == "/dev/ttyS"@ + rest,
    ensures
        uart_slot(port) <==> port.port_type is Unknown,
        uart_type_path(port) == "/sys/class/tty/ttyS"@ + rest + "/type"@,
{
    reveal_strlit("/dev/ttyS");
    reveal_strlit("/dev/");
    reveal_strlit("ttyS");
    reveal_strlit("/sys/class/tty/");
    reveal_strlit("/sys/class/tty/ttyS");
    let name = port.port_name@;
    let behind = name.skip(5);
    assert("/dev/"@ =~= name.subrange(0, 5));
    assert("ttyS"@ =~= behind.subrange(0, 4));
    assert(behind =~= "ttyS"@ + rest);
    assert("/sys/class/tty/ttyS"@ =~= "/sys/class/tty/"@ + "ttyS"@);
    assert(uart_type_path(port) =~= "/sys/class/tty/ttyS"@ + rest + "/type"@);
}

/// There is a type file to ask exactly for the ports of unknown type whose name begins with
/// `/dev/ttyS`, whatever follows, and it is the one named after the slot.
pub proof fn law_slots_have_a_type_file(port: PortInfo)
    ensures
        uart_slot(port) <==> port.port_type is Unknown && "/dev/ttyS"@.is_prefix_of(
            port.port_name@,
        ),
        uart_slot(port) ==> uart_type_path(port) == "/sys/class/tty/ttyS"@ + port.port_name@.skip(9)
            + "/type"@,
{
    reveal_strlit("/dev/ttyS");
    let name = port.port_name@;
    if "/dev/ttyS"@.is_prefix_of(name) {
        assert(name =~= "/dev/ttyS"@ + name.skip(9)) by {
            assert(name.subrange(0, 9) + name.skip(9) =~= name);
        }
        lemma_slot_name(port, name.skip(9));
    } else if uart_slot(port) {
        reveal_strlit("/dev/");
        reveal_strlit("ttyS");
        let behind = name.skip(5);
        assert("/dev/"@ == name.subrange(0, 5));
        assert("ttyS"@ == behind.subrange(0, 4));
        assert forall|i: int| 0 <= i < 9 implies "/dev/ttyS"@[i] == #[trigger] name.subrange(
            0,
            9,
        )[i] by {
            if i < 5 {
                assert(name.subrange(0, 5)[i] == name[i]);
            } else {
                assert(behind.subrange(0, 4)[i - 5] == name[i]);
            }
        }
        assert("/dev/ttyS"@ =~= name.subrange(0, 9));
    }
}

/// A slot whose type file says `0`, with or without whitespace around it, is a phantom, and unless
/// all ports are asked for the list is the one without it: for every name that begins with
/// `/dev/ttyS`, and wherever the slot stands among the ports.
pub proof fn law_slot_without_hardware_is_hidden(
    port: PortInfo,
    rest: Seq<char>,
    contents: String,
    blank_before: Seq<char>,
    blank_after: Seq<char>,
    ports_before: Seq<PortInfo>,
    files_before: Seq<Option<String>>,
    ports_after: Seq<PortInfo>,
    files_after: Seq<Option<String>>,
)
    requires
        port.port_type is Unknown,
        port.port_name@ == "/dev/ttyS"@ + rest,
        contents@ == blank_before + seq!['0'] + blank_after,
        blank(blank_before),
        blank(blank_after),
        ports_before.len() == files_before.len(),
        ports_after.len() == files_after.len(),
    ensures
        phantom(port, Some(contents)),
        uart_slot(port),
        uart_type_path(port) == "/sys/class/tty/ttyS"@ + rest + "/type"@,
        listed(
            ports_before + seq![port] + ports_after,
            files_before + seq![Some(contents)] + files_after,
            false,
        ) == listed(ports_before + ports_after, files_before + files_after, false),
{
    lemma_slot_name(port, rest);
    law_trimming_uncovers_the_text(blank_before, seq!['0'], blank_after);
    reveal_strlit("0");
    assert("0"@ =~= seq!['0']);
    let file = Some(contents);
    law_list_follows_the_ports(ports_before + seq![port], files_before + seq![file], ports_after,
        files_after, false);
    law_list_follows_the_ports(ports_before, files_before, seq![port], seq![file], false);
    law_list_follows_the_ports(ports_before, files_before, ports_after, files_after, false);
    lemma_list_of_one(port, file, false);
    let list = listed(ports_before, files_before, false);
    assert(list + Seq::<EntryText>::empty() =~= list);
}

/// The list of one port.
proof fn lemma_list_of_one(port: PortInfo, file: Option<String>, show_all: bool)
    ensures
        listed(seq![port], seq![file], show_all) == (if show_all || !phantom(port, file) {
            seq![entry_of(port)]
        } else {
            Seq::empty()
        }),
{
    let before = listed(seq![port].drop_last(), seq![file].drop_last(), show_all);
    assert(before =~= Seq::<EntryText>::empty());
    assert(before.push(entry_of(port)) =~= seq![entry_of(port)]);
}

/// The list goes through the ports in their order, and each port counts for itself: the list of
/// some ports and then others is the list of the ones and then that of the others.
pub proof fn law_list_follows_the_ports(
    ports: Seq<PortInfo>,
    files: Seq<Option<String>>,
    more_ports: Seq<PortInfo>,
    more_files: Seq<Option<String>>,
    show_all: bool,
)
    requires
        ports.len() == files.len(),
        more_ports.len() == more_files.len(),
    ensures
        listed(ports + more_ports, files + more_files, show_all) == listed(ports, files, show_all)
            + listed(more_ports, more_files, show_all),
    decreases more_ports.len(),
{
    let first = listed(ports, files, show_all);
    if more_ports.len() == 0 {
        assert(ports + more_ports =~= ports);
        assert(files + more_files =~= files);
        assert(first + listed(more_ports, more_files, show_all) =~= first);
    } else {
        law_list_follows_the_ports(
            ports,
            files,
            more_ports.drop_last(),
            more_files.drop_last(),
            show_all,
        );
        assert((ports + more_ports).drop_last() =~= ports + more_ports.drop_last());
        assert((files + more_files).drop_last() =~= files + more_files.drop_last());
        assert(listed(ports + more_ports, files + more_files, show_all) =~= first + listed(
            more_ports,
            more_files,
            show_all,
        ));
    }
}

/// Every other port is listed, under its name and with its description: a port of a known type, a
/// port whose name does not begin with `/dev/ttyS`, a slot whose type file could not be read, and
/// a slot whose file says anything but `0`. With all ports asked for, a phantom is listed too.
pub proof fn law_other_ports_are_listed(port: PortInfo, file: Option<String>, show_all: bool)
    requires
        show_all || !(port.port_type is Unknown) || !"/dev/ttyS"@.is_prefix_of(port.port_name@)
            || file is None || forall|before: Seq<char>, after: Seq<char>| #[trigger]
            blank(before) && #[trigger] blank(after) ==> file->0@ != before + seq!['0'] + after,
    ensures
        listed(seq![port], seq![file], show_all) == seq![
            EntryText { name: port.port_name@, desc: description(port.port_type) },
        ],
        !show_all ==> !phantom(port, file),
{
    lemma_list_of_one(port, file, show_all);
    law_slots_have_a_type_file(port);
    if !show_all && phantom(port, file) {
        let text = file->0@;
        law_trimming_takes_whitespace_only(text);
        let (start, end) = choose|start: int, end: int|
            {
                &&& 0 <= start <= end <= text.len()
                &&& trimmed(text) == #[trigger] text.subrange(start, end)
                &&& forall|i: int| 0 <= i < start ==> whitespace(#[trigger] text[i])
                &&& forall|i: int| end <= i < text.len() ==> whitespace(#[trigger] text[i])
            };
        let before = text.take(start);
        let after = text.skip(end);
        reveal_strlit("0");
        assert(text.subrange(start, end) =~= seq!['0']);
        assert(text =~= before + seq!['0'] + after) by {
            assert(text[start] == text.subrange(start, end)[0]);
        }
        assert(blank(before));
        assert(blank(after)) by {
            assert forall|i: int| 0 <= i < after.len() implies whitespace(#[trigger] after[i]) by {
                assert(after[i] == text[end + i]);
            }
        }
    }
}

/// The description of a USB port gives the vendor and the product, in full, and ends with the two
/// ids in hexadecimal; a text that the port does not give is said to be unknown.
pub proof fn law_usb_description_gives_all(info: UsbPortInfo, vendor: Seq<char>, product: Seq<char>)
    requires
        vendor == (match info.manufacturer {
            Some(text) => text@,
            None => "unknown vendor"@,
        }),
        product == (match info.product {
            Some(text) => text@,
            None => "unknown product"@,
        }),
    ensures
        ({
            let desc = description(PortType::UsbPort(info));
            let v = 5 + vendor.len() as int;
            let p = v + 3 + product.len();
            &&& desc.len() == p + 21
            &&& desc.take(5) == "USB  "@
            &&& desc.subrange(5, v) == vendor
            &&& desc.subrange(v, v + 3) == " — "@
            &&& desc.subrange(v + 3, p) == product
            &&& desc.subrange(p, p + 11) == "  (VID:PID "@
            &&& desc.subrange(p + 11, p + 15) == hex4(info.vid)
            &&& desc[p + 15] == ':'
            &&& desc.subrange(p + 16, p + 20) == hex4(info.pid)
            &&& desc[p + 20] == ')'
        }),
{
    reveal_strlit("USB  ");
    reveal_strlit(" — ");
    reveal_strlit("  (VID:PID ");
    reveal_strlit(":");
    reveal_strlit(")");
    let desc = description(PortType::UsbPort(info));
    let v = 5 + vendor.len() as int;
    let p = v + 3 + product.len();
    assert(desc.take(5) =~= "USB  "@);
    assert(desc.subrange(5, v) =~= vendor);
    assert(desc.subrange(v, v + 3) =~= " — "@);
    assert(desc.subrange(v + 3, p) =~= product);
    assert(desc.subrange(p, p + 11) =~= "  (VID:PID "@);
    assert(desc.subrange(p + 11, p + 15) =~= hex4(info.vid));
    assert(desc.subrange(p + 16, p + 20) =~= hex4(info.pid));
}

/// The message about hidden ports gives their number in decimal; there is none where there are
/// ports to pick from.
pub proof fn law_message_gives_the_number_hidden(count: usize, entries: Vec<PortEntry>)
    ensures
        ({
            let message = Discovery::OnlyPhantoms(count).message_text();
            let end = 30 + decimal(count as nat).len() as int;
            &&& message is Some
            &&& message->0.take(30) == "No usable serial ports found ("@
            &&& message->0.subrange(30, end) == decimal(count as nat)
            &&& message->0.skip(end)
                == " phantom slot(s) hidden).\nPlug in a device, or pass --all to see everything."@
        }),
        Discovery::NoPorts.message_text() == Some("No serial ports found."@),
        Discovery::Ports(entries).message_text() is None,
{
    reveal_strlit("No usable serial ports found (");
    let message = Discovery::OnlyPhantoms(count).message_text()->0;
    let end = 30 + decimal(count as nat).len() as int;
    assert(message.take(30) =~= "No usable serial ports found ("@);
    assert(message.subrange(30, end) =~= decimal(count as nat));
    assert(message.skip(end)
        =~= " phantom slot(s) hidden).\nPlug in a device, or pass --all to see everything."@);
}

/// The texts of entries are their names and descriptions as they stand, each in its place.
pub proof fn law_entry_texts_are_those_of_the_entries(entries: Seq<PortEntry>)
    ensures
        entry_texts(entries).len() == entries.len(),
        forall|i: int|
            0 <= i < entries.len() ==> (#[trigger] entry_texts(entries)[i]).name == entries[i].name@
                && entry_texts(entries)[i].desc == entries[i].desc@,
{
}

} // verus!
