//! What the command line asks for.

use vstd::prelude::*;
use vstd::string::*;

use crate::text::{same_text, starts_with};

verus! {

/// What the command line asks for.
pub struct Options {
    /// Whether phantom ports are listed too.
    pub show_all: bool,
    /// The port that was named, if one was: discovery is skipped.
    pub path: Option<String>,
}

/// Whether `arg` asks for all ports.
pub open spec fn asks_for_all(arg: Seq<char>) -> bool {
    arg == "--all"@ || arg == "-a"@
}

/// Whether `arg` names a port: it is none of the options.
pub open spec fn names_port(arg: Seq<char>) -> bool {
    !"-"@.is_prefix_of(arg)
}

/// Whether `index` is the place of the first argument that names a port.
pub open spec fn first_port(args: Seq<String>, index: int) -> bool {
    &&& 0 <= index < args.len()
    &&& names_port(args[index]@)
    &&& forall|i: int| 0 <= i < index ==> !names_port(#[trigger] args[i]@)
}

/// Reads the arguments behind the program's name.
pub fn parse_args(args: &[String]) -> (out: Options)
    ensures
        out.show_all == exists|i: int|
            0 <= i < args@.len() && asks_for_all(#[trigger] args@[i]@),
        match out.path {
            Some(path) => exists|i: int| #[trigger]
                first_port(args@, i) && path@ == args@[i]@,
            None => forall|i: int| 0 <= i < args@.len() ==> !names_port(#[trigger] args@[i]@),
        },
{
    let mut show_all: bool = false;
    let mut path: Option<String> = None;
    let mut i: usize = 0;
    while i < args.len()
        invariant
            i <= args@.len(),
            show_all == exists|j: int| 0 <= j < i && asks_for_all(#[trigger] args@[j]@),
            match path {
                Some(path) => exists|j: int| #[trigger]
                    first_port(args@, j) && path@ == args@[j]@,
                None => forall|j: int| 0 <= j < i ==> !names_port(#[trigger] args@[j]@),
            },
        decreases args@.len() - i,
    {
        let arg = args[i].as_str();
        if same_text(arg, "--all") || same_text(arg, "-a") {
            assert(asks_for_all(args@[i as int]@));
            show_all = true;
        }
        if path.is_none() && !starts_with(arg, "-") {
            assert(first_port(args@, i as int));
            path = Some(arg.to_owned());
        }
        i = i + 1;
    }
    Options { show_all, path }
}

/// All ports are asked for by two spellings and no other. An argument names a port exactly when it
/// does not begin with a dash; the empty one does not.
pub proof fn law_options_begin_with_a_dash(arg: Seq<char>)
    ensures
        asks_for_all(arg) <==> arg == seq!['-', '-', 'a', 'l', 'l'] || arg == seq!['-', 'a'],
        names_port(arg) <==> arg.len() == 0 || arg[0] != '-',
{
    reveal_strlit("--all");
    reveal_strlit("-a");
    reveal_strlit("-");
    assert("--all"@ =~= seq!['-', '-', 'a', 'l', 'l']);
    assert("-a"@ =~= seq!['-', 'a']);
    if arg.len() > 0 {
        assert(arg.subrange(0, 1)[0] == arg[0]);
        if arg[0] == '-' {
            assert("-"@ =~= arg.subrange(0, 1));
        }
    }
}

/// The port is the first argument that does not begin with a dash: all before it do, and there is
/// no other such place.
pub proof fn law_first_port_is_taken(args: Seq<String>, index: int, other: int)
    ensures
        first_port(args, index) <==> {
            &&& 0 <= index < args.len()
            &&& args[index]@.len() == 0 || args[index]@[0] != '-'
            &&& forall|i: int|
                0 <= i < index ==> (#[trigger] args[i])@.len() > 0 && args[i]@[0] == '-'
        },
        first_port(args, index) && first_port(args, other) ==> index == other,
{
    assert forall|i: int| 0 <= i < args.len() implies names_port((#[trigger] args[i])@) == (
    args[i]@.len() == 0 || args[i]@[0] != '-') by {
        law_options_begin_with_a_dash(args[i]@);
    }
    if first_port(args, index) {
        assert(names_port(args[index]@));
    }
    if first_port(args, other) {
        assert(names_port(args[other]@));
    }
}

} // verus!
