//! How the program in the terminal is started, and how the user is greeted.

use vstd::prelude::*;

verus! {

/// The kind of terminal that the program is told it runs in.
pub fn term_name(colors: i32) -> (name: &'static str)
    ensures
        name@ == if colors == 256 {
            "xterm-256color"@
        } else {
            "xterm"@
        },
{
    if colors == 256 {
        "xterm-256color"
    } else {
        "xterm"
    }
}

/// The name that a command is started under: its second word, where it has one,
/// or else its first. No other word is handed on.
pub fn invoked_name(command: &Vec<String>) -> (name: &String)
    requires
        command@.len() > 0,
    ensures
        name@ == if command@.len() > 1 {
            command@[1]@
        } else {
            command@[0]@
        },
{
    if command.len() > 1 {
        &command[1]
    } else {
        &command[0]
    }
}

/// Where the greeting comes from next.
#[derive(Clone, Copy, PartialEq, Eq, Structural)]
pub enum Greeting {
    /// The file that the system writes at each login.
    Dynamic,
    /// The same under its older name.
    OldDynamic,
    /// The file that the administrator wrote.
    Static,
    /// There is no more.
    Done,
}

impl Greeting {
    /// The files that are tried, given whether the user wants no greeting, and
    /// whether the first one could be shown: the second one only where the first
    /// could not, and the last one in any case.
    pub open spec fn plan(hushed: bool, first_shown: bool) -> Seq<Greeting> {
        if hushed {
            Seq::empty()
        } else if first_shown {
            seq![Greeting::Dynamic, Greeting::Static]
        } else {
            seq![Greeting::Dynamic, Greeting::OldDynamic, Greeting::Static]
        }
    }

    /// What is tried after this.
    pub open spec fn after(self, shown: bool) -> Greeting {
        match self {
            Greeting::Dynamic => if shown {
                Greeting::Static
            } else {
                Greeting::OldDynamic
            },
            Greeting::OldDynamic => Greeting::Static,
            _ => Greeting::Done,
        }
    }

    /// What is tried first, given whether the user wants no greeting.
    pub fn first(hushed: bool) -> (g: Greeting)
        ensures
            g == if hushed {
                Greeting::Done
            } else {
                Greeting::Dynamic
            },
    {
        if hushed {
            Greeting::Done
        } else {
            Greeting::Dynamic
        }
    }

    /// What is tried after this, given whether this could be shown.
    pub fn next(self, shown: bool) -> (g: Greeting)
        ensures
            g == self.after(shown),
    {
        match self {
            Greeting::Dynamic => if shown {
                Greeting::Static
            } else {
                Greeting::OldDynamic
            },
            Greeting::OldDynamic => Greeting::Static,
            _ => Greeting::Done,
        }
    }

    /// The file to show.
    pub fn path(self) -> (path: Option<&'static str>)
        ensures
            self == Greeting::Done <==> path is None,
            self == Greeting::Dynamic ==> path->0@ == "/run/motd.dynamic"@,
            self == Greeting::OldDynamic ==> path->0@ == "/var/run/motd.dynamic"@,
            self == Greeting::Static ==> path->0@ == "/etc/motd"@,
    {
        match self {
            Greeting::Dynamic => Some("/run/motd.dynamic"),
            Greeting::OldDynamic => Some("/var/run/motd.dynamic"),
            Greeting::Static => Some("/etc/motd"),
            Greeting::Done => None,
        }
    }
}

/// What is tried when each file is followed by the next, until there is no more.
pub open spec fn tried(g: Greeting, first_shown: bool, fuel: nat) -> Seq<Greeting>
    decreases fuel,
{
    if fuel == 0 || g == Greeting::Done {
        Seq::empty()
    } else {
        let next = g.after(g == Greeting::Dynamic && first_shown);
        seq![g] + tried(next, first_shown, (fuel - 1) as nat)
    }
}

/// The files are tried as planned, and the greeting comes to an end.
pub proof fn law_greeting_goes_as_planned(hushed: bool, first_shown: bool, fuel: nat)
    requires
        fuel >= 3,
    ensures
        tried(
            if hushed {
                Greeting::Done
            } else {
                Greeting::Dynamic
            },
            first_shown,
            fuel,
        ) == Greeting::plan(hushed, first_shown),
{
    reveal_with_fuel(tried, 4);
    assert(tried(
        if hushed {
            Greeting::Done
        } else {
            Greeting::Dynamic
        },
        first_shown,
        fuel,
    ) =~= Greeting::plan(hushed, first_shown));
}

} // verus!
