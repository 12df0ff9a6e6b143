# portcall

A lightweight terminal serial monitor that discovers the available ports and lets you pick one
from a list, instead of making you memorize `/dev/ttyUSB0` or `COM4`: discover, pick, connect.
It detects the baud rate of devices that send ASCII text.

```sh
portcall              # discover ports, pick one, connect
portcall /dev/ttyACM0 # list this port only, without discovery
portcall --all        # list empty legacy ttyS* slots too
```

## Layout

`src/` is a library verified with [Verus](https://github.com/verus-lang/verus). It holds all
decisions, and touches neither the terminal nor a port: events go in, what is to be done comes
out.

| module | what it does |
| --- | --- |
| `args`, `ports` | the command line; which ports are listed, and how they are described |
| `input` | key presses |
| `port_picker`, `baud_picker`, `rx_screen` | the three screens |
| `flow` | the way from screen to screen |
| `link`, `lines` | what reads mean for the reader; bytes cut into lines of text |
| `scan`, `score`, `single` | detection of the baud rate; the score of a sample; its arithmetic |
| `text` | digits, padding, trimming |

What the modules promise as a whole is stated in the proof functions whose names begin with
`law_`: no received byte is lost, chunk boundaries make no difference to the lines, a scan finds
the best match, a rate that was typed is the one that is connected at, the flow never goes back.

Three functions of the standard library are taken at their documentation's word: `String::push`,
`String::pop` and `String::from_utf8_lossy`.

`app/` is the program around the library: the terminal interface, built with `tuie`, and the
access to the ports, through `serialport`.
