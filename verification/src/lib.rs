//! The logic of a terminal serial monitor that discovers the available ports and lets the user
//! pick one: discover, pick, connect.
//!
//! Every module states what it does in contracts that Verus proves. Terminal, files, threads and
//! the serial ports themselves are outside: they hand in events and carry out what comes back.

// Getting to a list of ports.
pub mod args;
pub mod ports;

// The screens and the flow between them.
pub mod input;
pub mod port_picker;
pub mod baud_picker;
pub mod rx_screen;
pub mod flow;

// What comes from the serial port.
pub mod link;
pub mod lines;

// Detection of the baud rate.
pub mod scan;
pub mod score;
pub mod single;

pub mod text;
