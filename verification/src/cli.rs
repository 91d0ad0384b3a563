//! Argument parsing.
//!
//! Options are accepted wherever they appear, so that they work on either side
//! of the command: `kaimirror --display 1 shot x.png` and
//! `kaimirror shot --display 1 x.png` are the same.
use vstd::prelude::*;
use crate::keys::{
    law_names_are_the_table_in_order, names, sorted_names, table_names, texts, KEYS,
};
use crate::text::{
    chars_of, debug_text, debugged, decimal, first_at, join, joined, law_decimal_reads_back,
    lemma_first_at, no_words, parse_unsigned, push_string, push_word, same_text, string_of, strings,
    unsigned,
};
use crate::words::{holds, lemma_holds_itself, lemma_holds_within, lemma_joined_holds};

verus! {

pub const VERSION: &'static str = "0.2.0";

pub const DEFAULT_FPS: u32 = 30;

/// What the command line asks for.
pub struct Args {
    pub cmd: Option<String>,
    pub display: u32,
    pub no_wake: bool,
    pub format: String,
    pub fps: u32,
    /// The magnifications that were given, as they were written; the last one
    /// counts, and without one the picture is doubled.
    pub scales: Vec<String>,
    pub control: bool,
    pub list: bool,
    /// Which debuggable window to read.
    pub target: Option<u32>,
    pub positionals: Vec<String>,
}

/// The same as contracts speak of it.
pub struct Choices {
    pub cmd: Option<Seq<char>>,
    pub display: u32,
    pub no_wake: bool,
    pub format: Seq<char>,
    pub fps: u32,
    pub scales: Seq<Seq<char>>,
    pub control: bool,
    pub list: bool,
    pub target: Option<u32>,
    pub positionals: Seq<Seq<char>>,
}

impl View for Args {
    type V = Choices;

    open spec fn view(&self) -> Choices {
        Choices {
            cmd: match self.cmd {
                Some(c) => Some(c@),
                None => None,
            },
            display: self.display,
            no_wake: self.no_wake,
            format: self.format@,
            fps: self.fps,
            scales: strings(self.scales@),
            control: self.control,
            list: self.list,
            target: self.target,
            positionals: strings(self.positionals@),
        }
    }
}

/// What is chosen where nothing is said.
pub open spec fn defaults() -> Choices {
    Choices {
        cmd: None,
        display: 0,
        no_wake: false,
        format: "raw"@,
        fps: DEFAULT_FPS,
        scales: seq![],
        control: false,
        list: false,
        target: None,
        positionals: seq![],
    }
}

/// What is wrong with a command line.
pub enum CliError {
    NeedsValue(&'static str),
    Display(String),
    Format(String),
    Fps(String),
    /// Left to the caller to find: whether a text is a positive number with a
    /// fraction is not told here.
    Scale(String),
    Target(String),
    Unknown(String),
}

/// The same as contracts speak of it.
pub enum Wrong {
    NeedsValue(Seq<char>),
    Display(Seq<char>),
    Format(Seq<char>),
    Fps(Seq<char>),
    Scale(Seq<char>),
    Target(Seq<char>),
    Unknown(Seq<char>),
}

impl View for CliError {
    type V = Wrong;

    open spec fn view(&self) -> Wrong {
        match *self {
            CliError::NeedsValue(what) => Wrong::NeedsValue(what@),
            CliError::Display(v) => Wrong::Display(v@),
            CliError::Format(v) => Wrong::Format(v@),
            CliError::Fps(v) => Wrong::Fps(v@),
            CliError::Scale(v) => Wrong::Scale(v@),
            CliError::Target(v) => Wrong::Target(v@),
            CliError::Unknown(v) => Wrong::Unknown(v@),
        }
    }
}

/// Why the reading of a command line stopped.
pub enum Stop {
    /// There was no more of it.
    End,
    /// Help was asked for, of this command or of all.
    Help(Option<String>),
    Version,
    Bad(CliError),
}

/// The same as contracts speak of it.
pub enum Ended {
    End,
    Help(Option<Seq<char>>),
    Version,
    Bad(Wrong),
}

impl View for Stop {
    type V = Ended;

    open spec fn view(&self) -> Ended {
        match *self {
            Stop::End => Ended::End,
            Stop::Help(c) => Ended::Help(
                match c {
                    Some(c) => Some(c@),
                    None => None,
                },
            ),
            Stop::Version => Ended::Version,
            Stop::Bad(e) => Ended::Bad(e@),
        }
    }
}

pub open spec fn is_command(w: Seq<char>) -> bool {
    ||| w == "view"@
    ||| w == "record"@
    ||| w == "shot"@
    ||| w == "snapshot"@
    ||| w == "key"@
    ||| w == "type"@
    ||| w == "mode"@
    ||| w == "wake"@
}

pub open spec fn starts_with_dashes(w: Seq<char>) -> bool {
    w.len() >= 2 && w[0] == '-' && w[1] == '-'
}

/// An argument as an option's name, and the value behind its `=`, if it has
/// one: only what begins with `--` is taken apart.
pub open spec fn split_arg(arg: Seq<char>) -> (Seq<char>, Option<Seq<char>>) {
    match first_at(arg, '=', 0) {
        Some(i) => if starts_with_dashes(arg.subrange(0, i)) {
            (arg.subrange(0, i), Some(arg.subrange(i + 1, arg.len() as int)))
        } else {
            (arg, None)
        },
        None => (arg, None),
    }
}

/// What the first argument of a command line does: it changes what is chosen,
/// and takes up one or two arguments; or it ends the reading.
pub enum Took {
    Next(Choices, int),
    Stop(Ended),
}

pub open spec fn took_value(
    value: Option<Seq<char>>,
    what: Seq<char>,
    used: int,
    f: spec_fn(Seq<char>) -> Result<Choices, Wrong>,
) -> Took {
    match value {
        None => Took::Stop(Ended::Bad(Wrong::NeedsValue(what))),
        Some(v) => match f(v) {
            Ok(c) => Took::Next(c, used),
            Err(e) => Took::Stop(Ended::Bad(e)),
        },
    }
}

pub open spec fn positive_u32(v: Seq<char>) -> Option<u32> {
    match unsigned(v) {
        Some(n) => if 0 < n <= u32::MAX {
            Some(n as u32)
        } else {
            None
        },
        None => None,
    }
}

pub open spec fn any_u32(v: Seq<char>) -> Option<u32> {
    match unsigned(v) {
        Some(n) => if n <= u32::MAX {
            Some(n as u32)
        } else {
            None
        },
        None => None,
    }
}

/// What the first argument of a command line does.
pub open spec fn took(args: Seq<Seq<char>>, c: Choices) -> Took {
    let arg = args[0];
    let (name, inline) = split_arg(arg);
    let (value, used) = match inline {
        Some(v) => (Some(v), 1int),
        None => if args.len() > 1 {
            (Some(args[1]), 2int)
        } else {
            (None, 1int)
        },
    };
    if name == "-h"@ || name == "--help"@ {
        Took::Stop(Ended::Help(c.cmd))
    } else if name == "-V"@ || name == "--version"@ {
        Took::Stop(Ended::Version)
    } else if name == "--display"@ {
        took_value(
            value,
            name,
            used,
            |v: Seq<char>|
                if v == "0"@ {
                    Ok(Choices { display: 0, ..c })
                } else if v == "1"@ {
                    Ok(Choices { display: 1, ..c })
                } else {
                    Err(Wrong::Display(v))
                },
        )
    } else if name == "--no-wake"@ {
        Took::Next(Choices { no_wake: true, ..c }, 1)
    } else if name == "--control"@ {
        Took::Next(Choices { control: true, ..c }, 1)
    } else if name == "--list"@ {
        Took::Next(Choices { list: true, ..c }, 1)
    } else if name == "--format"@ {
        took_value(
            value,
            name,
            used,
            |v: Seq<char>|
                if v == "raw"@ || v == "png"@ {
                    Ok(Choices { format: v, ..c })
                } else {
                    Err(Wrong::Format(v))
                },
        )
    } else if name == "--fps"@ {
        took_value(
            value,
            name,
            used,
            |v: Seq<char>|
                match positive_u32(v) {
                    Some(fps) => Ok(Choices { fps, ..c }),
                    None => Err(Wrong::Fps(v)),
                },
        )
    } else if name == "--target"@ {
        took_value(
            value,
            name,
            used,
            |v: Seq<char>|
                match any_u32(v) {
                    Some(n) => Ok(Choices { target: Some(n), ..c }),
                    None => Err(Wrong::Target(v)),
                },
        )
    } else if name == "--scale"@ {
        took_value(
            value,
            name,
            used,
            |v: Seq<char>| Ok(Choices { scales: c.scales.push(v), ..c }),
        )
    } else if name.len() > 1 && name[0] == '-' {
        Took::Stop(Ended::Bad(Wrong::Unknown(name)))
    } else if c.cmd is None && is_command(name) {
        Took::Next(Choices { cmd: Some(name), ..c }, 1)
    } else {
        Took::Next(Choices { positionals: c.positionals.push(name), ..c }, 1)
    }
}

/// What a command line comes to, read from its first argument on.
pub open spec fn read_args(args: Seq<Seq<char>>, c: Choices) -> (Choices, Ended)
    decreases args.len(),
{
    if args.len() == 0 {
        (c, Ended::End)
    } else {
        match took(args, c) {
            Took::Stop(e) => (c, e),
            Took::Next(after, used) => if used == 2 && args.len() >= 2 {
                read_args(args.subrange(2, args.len() as int), after)
            } else {
                read_args(args.subrange(1, args.len() as int), after)
            },
        }
    }
}

/// A command line as it was read: what was chosen, and why the reading
/// stopped.
pub struct Parsed {
    pub args: Args,
    pub stop: Stop,
}

fn split(arg: &str) -> (parts: (String, Option<String>))
    ensures
        split_arg(arg@) == (
            parts.0@,
            match parts.1 {
                Some(v) => Some(v@),
                None => None,
            },
        ),
{
    let chars = chars_of(arg);
    let n: usize = chars.len();
    let mut i: usize = 0;
    while i < n && chars[i] != '='
        invariant
            i <= n,
            n == chars@.len(),
            chars@ == arg@,
            first_at(arg@, '=', 0) == first_at(arg@, '=', i as int),
        decreases n - i,
    {
        i = i + 1;
    }
    if i < n {
        proof {
            assert(first_at(arg@, '=', 0) == Some(i as int));
        }
        if i >= 2 && chars[0] == '-' && chars[1] == '-' {
            return (
                string_of(chars.as_slice(), 0, i),
                Some(string_of(chars.as_slice(), i + 1, n)),
            );
        }
    }
    (arg.to_string(), None)
}

fn command(w: &str) -> (yes: bool)
    ensures
        yes == is_command(w@),
{
    same_text(w, "view") || same_text(w, "record") || same_text(w, "shot") || same_text(
        w,
        "snapshot",
    ) || same_text(w, "key") || same_text(w, "type") || same_text(w, "mode") || same_text(w, "wake")
}

fn number(v: &str) -> (n: Option<u32>)
    ensures
        n == any_u32(v@),
{
    let chars = chars_of(v);
    match parse_unsigned(chars.as_slice(), u32::MAX as u64) {
        Some(n) => Some(n as u32),
        None => None,
    }
}

fn positive(v: &str) -> (n: Option<u32>)
    ensures
        n == positive_u32(v@),
{
    match number(v) {
        Some(n) => if n > 0 {
            Some(n)
        } else {
            None
        },
        None => None,
    }
}

enum Taken {
    Next(usize),
    Stop(Stop),
}

/// The value of an option: the one behind its `=`, or else the next argument;
/// and how many arguments that makes.
fn value_of(inline: Option<String>, argv: &Vec<String>, i: usize) -> (v: (Option<String>, usize))
    requires
        i < argv@.len(),
    ensures
        (
            match v.0 {
                Some(s) => Some(s@),
                None => None,
            },
            v.1 as int,
        ) == (match inline {
            Some(s) => (Some(s@), 1int),
            None => if argv@.len() - i > 1 {
                (Some(argv@[i + 1]@), 2int)
            } else {
                (None, 1int)
            },
        }),
{
    let n: usize = argv.len();
    match inline {
        Some(s) => (Some(s), 1),
        None => if n - i > 1 {
            (Some(argv[i + 1].as_str().to_string()), 2)
        } else {
            (None, 1)
        },
    }
}

impl Args {
    fn new() -> (a: Args)
        ensures
            a@ == defaults(),
    {
        let a = Args {
            cmd: None,
            display: 0,
            no_wake: false,
            format: "raw".to_string(),
            fps: DEFAULT_FPS,
            scales: no_words(),
            control: false,
            list: false,
            target: None,
            positionals: no_words(),
        };
        a
    }

    /// Take the argument at `i`.
    fn take(&mut self, argv: &Vec<String>, i: usize) -> (taken: Taken)
        requires
            i < argv@.len(),
        ensures
            match taken {
                Taken::Next(used) => took(
                    strings(argv@).subrange(i as int, argv@.len() as int),
                    old(self)@,
                ) == Took::Next(final(self)@, used as int) && (used == 1 || (used == 2 && i + 2
                    <= argv@.len())),
                Taken::Stop(s) => took(
                    strings(argv@).subrange(i as int, argv@.len() as int),
                    old(self)@,
                ) == Took::Stop(s@) && final(self)@ == old(self)@,
            },
    {
        let ghost rest = strings(argv@).subrange(i as int, argv@.len() as int);
        let (name, inline) = split(argv[i].as_str());
        proof {
            assert(rest[0] == argv@[i as int]@);
            if rest.len() > 1 {
                assert(rest[1] == argv@[i + 1]@);
            }
        }
        let name_str = name.as_str();
        if same_text(name_str, "-h") || same_text(name_str, "--help") {
            let cmd = match &self.cmd {
                Some(c) => Some(c.as_str().to_string()),
                None => None,
            };
            return Taken::Stop(Stop::Help(cmd));
        }
        if same_text(name_str, "-V") || same_text(name_str, "--version") {
            return Taken::Stop(Stop::Version);
        }
        if same_text(name_str, "--display") {
            let (value, used) = value_of(inline, argv, i);
            let v = match value {
                Some(v) => v,
                None => return Taken::Stop(Stop::Bad(CliError::NeedsValue("--display"))),
            };
            if same_text(v.as_str(), "0") {
                self.display = 0;
            } else if same_text(v.as_str(), "1") {
                self.display = 1;
            } else {
                return Taken::Stop(Stop::Bad(CliError::Display(v)));
            }
            return Taken::Next(used);
        }
        if same_text(name_str, "--no-wake") {
            self.no_wake = true;
            return Taken::Next(1);
        }
        if same_text(name_str, "--control") {
            self.control = true;
            return Taken::Next(1);
        }
        if same_text(name_str, "--list") {
            self.list = true;
            return Taken::Next(1);
        }
        if same_text(name_str, "--format") {
            let (value, used) = value_of(inline, argv, i);
            let v = match value {
                Some(v) => v,
                None => return Taken::Stop(Stop::Bad(CliError::NeedsValue("--format"))),
            };
            if same_text(v.as_str(), "raw") || same_text(v.as_str(), "png") {
                self.format = v;
                return Taken::Next(used);
            }
            return Taken::Stop(Stop::Bad(CliError::Format(v)));
        }
        if same_text(name_str, "--fps") {
            let (value, used) = value_of(inline, argv, i);
            let v = match value {
                Some(v) => v,
                None => return Taken::Stop(Stop::Bad(CliError::NeedsValue("--fps"))),
            };
            return match positive(v.as_str()) {
                Some(fps) => {
                    self.fps = fps;
                    Taken::Next(used)
                },
                None => Taken::Stop(Stop::Bad(CliError::Fps(v))),
            };
        }
        if same_text(name_str, "--target") {
            let (value, used) = value_of(inline, argv, i);
            let v = match value {
                Some(v) => v,
                None => return Taken::Stop(Stop::Bad(CliError::NeedsValue("--target"))),
            };
            return match number(v.as_str()) {
                Some(n) => {
                    self.target = Some(n);
                    Taken::Next(used)
                },
                None => Taken::Stop(Stop::Bad(CliError::Target(v))),
            };
        }
        if same_text(name_str, "--scale") {
            let (value, used) = value_of(inline, argv, i);
            let v = match value {
                Some(v) => v,
                None => return Taken::Stop(Stop::Bad(CliError::NeedsValue("--scale"))),
            };
            push_string(&mut self.scales, v);
            return Taken::Next(used);
        }
        let chars = chars_of(name_str);
        if chars.len() > 1 && chars[0] == '-' {
            return Taken::Stop(Stop::Bad(CliError::Unknown(name)));
        }
        if self.cmd.is_none() && command(name_str) {
            self.cmd = Some(name);
        } else {
            push_string(&mut self.positionals, name);
        }
        Taken::Next(1)
    }
}

/// Read a command line.
pub fn parse(argv: Vec<String>) -> (p: Parsed)
    ensures
        (p.args@, p.stop@) == read_args(strings(argv@), defaults()),
{
    let mut args = Args::new();
    let ghost all = strings(argv@);
    let n: usize = argv.len();
    let mut i: usize = 0;
    proof {
        assert(all.subrange(0, n as int) =~= all);
    }
    while i < n
        invariant
            i <= n,
            n == argv@.len(),
            all == strings(argv@),
            read_args(all, defaults()) == read_args(all.subrange(i as int, n as int), args@),
        decreases n - i,
    {
        let ghost rest = all.subrange(i as int, n as int);
        match args.take(&argv, i) {
            Taken::Stop(stop) => return Parsed { args, stop },
            Taken::Next(used) => {
                proof {
                    assert(rest.subrange(used as int, rest.len() as int) =~= all.subrange(
                        i + used,
                        n as int,
                    ));
                }
                i = i + used;
            },
        }
    }
    Parsed { args, stop: Stop::End }
}

/// What is said of an error, given how its value is shown.
pub open spec fn wrong_text(w: Wrong, shown: Seq<char>) -> Seq<char> {
    match w {
        Wrong::NeedsValue(what) => what + " needs a value"@,
        Wrong::Display(_) => "--display must be 0 or 1, got "@ + shown,
        Wrong::Format(_) => "--format must be raw or png, got "@ + shown,
        Wrong::Fps(_) => "--fps must be a positive integer, got "@ + shown,
        Wrong::Scale(_) => "--scale must be a positive number, got "@ + shown,
        Wrong::Target(_) => "--target must be the number of a target, got "@ + shown,
        Wrong::Unknown(_) => "unknown option "@ + shown,
    }
}

/// The value that an error is about.
pub open spec fn wrong_value(w: Wrong) -> Seq<char> {
    match w {
        Wrong::NeedsValue(what) => what,
        Wrong::Display(v) => v,
        Wrong::Format(v) => v,
        Wrong::Fps(v) => v,
        Wrong::Scale(v) => v,
        Wrong::Target(v) => v,
        Wrong::Unknown(v) => v,
    }
}

impl CliError {
    /// What is said of the error, given how its value is shown.
    pub fn describe(&self, shown: &str) -> (m: String)
        ensures
            m@ == wrong_text(self@, shown@),
    {
        let mut m = String::new();
        match self {
            CliError::NeedsValue(what) => {
                m.append(what);
                m.append(" needs a value");
                proof {
                    assert(m@ =~= wrong_text(self@, shown@));
                }
                return m;
            },
            CliError::Display(_) => m.append("--display must be 0 or 1, got "),
            CliError::Format(_) => m.append("--format must be raw or png, got "),
            CliError::Fps(_) => m.append("--fps must be a positive integer, got "),
            CliError::Scale(_) => m.append("--scale must be a positive number, got "),
            CliError::Target(_) => m.append("--target must be the number of a target, got "),
            CliError::Unknown(_) => m.append("unknown option "),
        }
        m.append(shown);
        proof {
            assert(m@ =~= wrong_text(self@, shown@));
        }
        m
    }

    /// The value that the error is about.
    pub fn value(&self) -> (v: &str)
        ensures
            v@ == wrong_value(self@),
    {
        match self {
            CliError::NeedsValue(what) => what,
            CliError::Display(v) => v.as_str(),
            CliError::Format(v) => v.as_str(),
            CliError::Fps(v) => v.as_str(),
            CliError::Scale(v) => v.as_str(),
            CliError::Target(v) => v.as_str(),
            CliError::Unknown(v) => v.as_str(),
        }
    }

    pub fn message(&self) -> (m: String)
        ensures
            m@ == wrong_text(self@, debugged(wrong_value(self@))),
    {
        let shown = debug_text(self.value());
        self.describe(shown.as_str())
    }
}

pub const CAPTURE_OPTS: &'static str = "\
capture options (usable on either side of the command):
  --display {0,1}    0=primary panel, 1=external/cover display (default: 0);
                     geometry is read from the frame
  --no-wake          do not tap power before capturing; a blanked panel
                     captures as solid black
";

pub const STREAM_OPTS: &'static str = "\
  --format {raw,png} raw RGB565 (default, content-independent rate) or png
                     (12x less bandwidth, slower)
  --fps N            frame rate: caps the device-side capture and is what the
                     sink is told (default: 30).  These are one knob because
                     any gap between them silently produces a wrong-speed
                     video
";

pub const VIEW_HELP: &'static str = "\
     Live mirror in an ffplay window.\n\n\
     options:\n\
     \x20 --control          forward terminal keystrokes to the device over a\n\
     \x20                    persistent channel (~0.3ms per key against ~140ms for\n\
     \x20                    `kaimirror key`); needs a TTY.  Type in the terminal:\n\
     \x20                    the mirror window keeps its own keystrokes\n\
     \x20 --scale F          window magnification, nearest-neighbour (default: 2)\n";

pub const RECORD_HELP: &'static str = "\
     Record the screen to a video file.  Ctrl-C finalizes it; an\n\
     existing file is overwritten.  The extension picks the container.\n\n\
     options:\n";

pub const SHOT_HELP: &'static str = "\
     Save a single screenshot (default: kaishot.png).  Always captured\n\
     as PNG: one frame is not worth optimising, and PNG keeps more\n\
     colour precision than the RGB565 raw dump.\n\n\
     options:\n";

pub const SNAPSHOT_HELP: &'static str = "\
     Print what is on the screen as a tree of roles, names and focus.  It is\n\
     read over the phone's remote debugging socket: nothing is pressed, and\n\
     the device pump is not needed.\n\n\
     options:\n\
     \x20 --list             print the debuggable targets, foreground marked\n\
     \x20 --target N         read one by its number, foreground or not\n";

pub const KEY_HELP: &'static str = "\
     Inject key presses on the raw /dev/input nodes.\n\n\
     options:\n\x20 --list             print the known key names and exit\n\n\
     key names:\n";

pub const TYPING_HELP: &'static str = "\
     Type on the phone by multi-tap.  Without TEXT the terminal becomes the\n\
     phone's keyboard until Ctrl-C; with it, the words are typed as one line.\n\
     Focus a text field on the phone first.\n\n\
     options:\n";

pub const MODE_HELP: &'static str = "\
     Calibrate the reader of the phone's input mode, and print what it sees.\n\
     Focus a text field on the phone first.\n\n\
     options:\n";

pub const WAKE_HELP: &'static str = "\
     Tap power to light the panel.  Power *toggles*: if the panel was\n\
     already lit, this turns it off.\n";

pub const USAGE: &'static str = "\
     scrcpy-style screen mirroring for KaiOS 3.x devices.\n\n\
     KaiOS runs Gecko (b2g) directly on the Android HAL with no\n\
     SurfaceFlinger and no Android framework, so scrcpy itself cannot\n\
     work.  What KaiOS does provide is b2g's own gfxdebugger-ipc\n\
     socket, which dumps the composited display to a file; the\n\
     device-side pump speaks it directly.\n\n\
     commands:\n";

/// Each command, and what is listed behind its name.
pub const COMMANDS: [(&'static str, &'static str); 8] = [
    ("view", "               live mirror in an ffplay window\n"),
    ("record", " OUTPUT      record the screen to a video file\n"),
    ("shot", " [OUTPUT]      save a single screenshot\n"),
    ("snapshot", "           read the screen as text, not pixels\n"),
    ("key", " KEY [KEY ...]  inject key presses (key --list for names)\n"),
    ("type", " [TEXT ...]    type on the phone, live or one line\n"),
    ("mode", "               show how the phone's input mode is read\n"),
    ("wake", "               tap power to light the panel\n"),
];

pub const USAGE_END: &'static str = "other options:\n\
     \x20 -h, --help         show help, or help for COMMAND\n\
     \x20 -V, --version      print the version\n\n\
     examples:\n\
     \x20 kaimirror view                     live mirror window (2x)\n\
     \x20 kaimirror view --scale 3\n\
     \x20 kaimirror view --control           drive the phone from the terminal\n\
     \x20 kaimirror record out.mp4           Ctrl-C to finalize\n\
     \x20 kaimirror record --fps 10 out.mp4  lighter on the device\n\
     \x20 kaimirror shot screen.png\n\
     \x20 kaimirror shot --display 1 cover.png\n\
     \x20 kaimirror snapshot --target 2\n\
     \x20 kaimirror key DOWN OK\n\
     \x20 kaimirror type \"hello world\"\n";

/// How many key names stand in a line of help.
pub const NAMES_PER_LINE: usize = 8;

/// Names in lines of eight, each line indented.
pub open spec fn name_lines(all: Seq<Seq<char>>) -> Seq<Seq<char>>
    decreases all.len(),
{
    if all.len() == 0 {
        seq![]
    } else if all.len() <= NAMES_PER_LINE {
        seq!["  "@ + joined(all, ", "@)]
    } else {
        seq!["  "@ + joined(all.subrange(0, NAMES_PER_LINE as int), ", "@)] + name_lines(
            all.subrange(NAMES_PER_LINE as int, all.len() as int),
        )
    }
}

/// What stands behind the name of a command in the first line of its help.
pub open spec fn usage_args(c: Seq<char>) -> Seq<char> {
    if c == "record"@ {
        " [options] OUTPUT\n\n"@
    } else if c == "shot"@ {
        " [options] [OUTPUT]\n\n"@
    } else if c == "snapshot"@ {
        " [--list] [--target N]\n\n"@
    } else if c == "key"@ {
        " [--list] KEY [KEY ...]\n\n"@
    } else if c == "type"@ {
        " [options] [TEXT ...]\n\n"@
    } else if c == "wake"@ {
        "\n\n"@
    } else {
        " [options]\n\n"@
    }
}

/// The help of a command behind its first line.
pub open spec fn help_body(c: Seq<char>) -> Seq<char> {
    if c == "view"@ {
        VIEW_HELP@ + STREAM_OPTS@ + "\n"@ + CAPTURE_OPTS@
    } else if c == "record"@ {
        RECORD_HELP@ + STREAM_OPTS@ + "\n"@ + CAPTURE_OPTS@
    } else if c == "shot"@ {
        SHOT_HELP@ + CAPTURE_OPTS@
    } else if c == "snapshot"@ {
        SNAPSHOT_HELP@
    } else if c == "key"@ {
        KEY_HELP@ + joined(name_lines(sorted_names()), "\n"@) + "\n"@
    } else if c == "type"@ {
        TYPING_HELP@ + CAPTURE_OPTS@
    } else if c == "mode"@ {
        MODE_HELP@ + CAPTURE_OPTS@
    } else {
        WAKE_HELP@
    }
}

/// The lines of the first `rows` commands.
pub open spec fn command_lines(rows: int) -> Seq<char>
    decreases rows,
{
    if rows <= 0 {
        seq![]
    } else {
        command_lines(rows - 1) + "  "@ + COMMANDS@[rows - 1].0@ + COMMANDS@[rows - 1].1@
    }
}

/// The help of a command, or of them all.
pub open spec fn help_text(cmd: Option<Seq<char>>) -> Seq<char> {
    match cmd {
        Some(c) if is_command(c) => "usage: kaimirror "@ + c + usage_args(c) + help_body(c),
        _ => "usage: kaimirror "@ + "[options] COMMAND [args]\n\n"@ + USAGE@ + command_lines(
            COMMANDS@.len() as int,
        ) + "\n"@ + CAPTURE_OPTS@ + "\n"@ + STREAM_OPTS@ + "\n"@ + USAGE_END@,
    }
}

fn key_list() -> (lines: Vec<String>)
    ensures
        strings(lines@) == name_lines(sorted_names()),
{
    let all = names();
    let n: usize = all.len();
    let mut lines = no_words();
    let mut i: usize = 0;
    let ghost ns = texts(all@);
    proof {
        assert(ns.subrange(0, n as int) =~= ns);
        assert(strings(lines@) + name_lines(ns) =~= name_lines(ns));
    }
    while i < n
        invariant
            i <= n,
            n == all@.len(),
            ns == texts(all@),
            strings(lines@) + name_lines(ns.subrange(i as int, n as int)) == name_lines(ns),
        decreases n - i,
    {
        let end: usize = if n - i > NAMES_PER_LINE {
            i + NAMES_PER_LINE
        } else {
            n
        };
        let ghost rest = ns.subrange(i as int, n as int);
        let ghost these = ns.subrange(i as int, end as int);
        let mut words = no_words();
        let mut k: usize = i;
        proof {
            assert(strings(words@) =~= ns.subrange(i as int, i as int));
        }
        while k < end
            invariant
                i <= k <= end <= n,
                n == all@.len(),
                ns == texts(all@),
                strings(words@) == ns.subrange(i as int, k as int),
            decreases end - k,
        {
            push_word(&mut words, all[k]);
            k = k + 1;
            proof {
                assert(strings(words@) =~= ns.subrange(i as int, k as int));
            }
        }
        let mut line = String::new();
        line.append("  ");
        let list = join(&words, ", ");
        line.append(list.as_str());
        let ghost before = strings(lines@);
        let ghost text = "  "@ + joined(these, ", "@);
        proof {
            assert(line@ =~= text);
        }
        push_string(&mut lines, line);
        proof {
            let left = ns.subrange(end as int, n as int);
            if rest.len() <= NAMES_PER_LINE {
                assert(these =~= rest);
                assert(left =~= seq![]);
                assert(name_lines(rest) == seq![text]);
            } else {
                assert(rest.subrange(0, NAMES_PER_LINE as int) =~= these);
                assert(rest.subrange(NAMES_PER_LINE as int, rest.len() as int) =~= left);
                assert(name_lines(rest) == seq![text] + name_lines(left));
            }
            assert(before.push(text) + name_lines(left) =~= before + name_lines(rest));
        }
        i = end;
    }
    proof {
        assert(ns.subrange(n as int, n as int) =~= seq![]);
        assert(strings(lines@) + name_lines(seq![]) =~= strings(lines@));
    }
    lines
}

/// Adds what stands behind the name of a command in the first line of its help.
fn push_usage_args(text: &mut String, c: &str)
    ensures
        final(text)@ == old(text)@ + usage_args(c@),
{
    if same_text(c, "record") {
        text.append(" [options] OUTPUT\n\n");
    } else if same_text(c, "shot") {
        text.append(" [options] [OUTPUT]\n\n");
    } else if same_text(c, "snapshot") {
        text.append(" [--list] [--target N]\n\n");
    } else if same_text(c, "key") {
        text.append(" [--list] KEY [KEY ...]\n\n");
    } else if same_text(c, "type") {
        text.append(" [options] [TEXT ...]\n\n");
    } else if same_text(c, "wake") {
        text.append("\n\n");
    } else {
        text.append(" [options]\n\n");
    }
}

/// Adds the help of a command behind its first line.
fn push_help_body(text: &mut String, c: &str)
    ensures
        final(text)@ == old(text)@ + help_body(c@),
{
    if same_text(c, "view") {
        text.append(VIEW_HELP);
        text.append(STREAM_OPTS);
        text.append("\n");
        text.append(CAPTURE_OPTS);
    } else if same_text(c, "record") {
        text.append(RECORD_HELP);
        text.append(STREAM_OPTS);
        text.append("\n");
        text.append(CAPTURE_OPTS);
    } else if same_text(c, "shot") {
        text.append(SHOT_HELP);
        text.append(CAPTURE_OPTS);
    } else if same_text(c, "snapshot") {
        text.append(SNAPSHOT_HELP);
    } else if same_text(c, "key") {
        text.append(KEY_HELP);
        let lines = key_list();
        let list = join(&lines, "\n");
        text.append(list.as_str());
        text.append("\n");
    } else if same_text(c, "type") {
        text.append(TYPING_HELP);
        text.append(CAPTURE_OPTS);
    } else if same_text(c, "mode") {
        text.append(MODE_HELP);
        text.append(CAPTURE_OPTS);
    } else {
        text.append(WAKE_HELP);
    }
    proof {
        assert(text@ =~= old(text)@ + help_body(c@));
    }
}

/// The help of a command, or of them all.
pub fn help(cmd: Option<&str>) -> (text: String)
    ensures
        text@ == help_text(
            match cmd {
                Some(c) => Some(c@),
                None => None,
            },
        ),
{
    let mut text = String::new();
    text.append("usage: kaimirror ");
    proof {
        assert(text@ =~= "usage: kaimirror "@);
    }
    if let Some(c) = cmd {
        if command(c) {
            text.append(c);
            push_usage_args(&mut text, c);
            push_help_body(&mut text, c);
            return text;
        }
    }
    text.append("[options] COMMAND [args]\n\n");
    text.append(USAGE);
    let ghost head = text@;
    proof {
        assert(head + command_lines(0) =~= head);
    }
    let mut row: usize = 0;
    while row < COMMANDS.len()
        invariant
            row <= COMMANDS@.len(),
            text@ == head + command_lines(row as int),
        decreases COMMANDS@.len() - row,
    {
        let (name, rest) = COMMANDS[row];
        text.append("  ");
        text.append(name);
        text.append(rest);
        row = row + 1;
        proof {
            assert(text@ =~= head + command_lines(row as int));
        }
    }
    text.append("\n");
    text.append(CAPTURE_OPTS);
    text.append("\n");
    text.append(STREAM_OPTS);
    text.append("\n");
    text.append(USAGE_END);
    text
}

proof fn lemma_command_letters(c: Seq<char>)
    requires
        is_command(c),
    ensures
        c.len() > 0,
        forall|i: int| 0 <= i < c.len() ==> 'a' <= #[trigger] c[i] <= 'z',
{
    reveal_strlit("view");
    reveal_strlit("record");
    reveal_strlit("shot");
    reveal_strlit("snapshot");
    reveal_strlit("key");
    reveal_strlit("type");
    reveal_strlit("mode");
    reveal_strlit("wake");
}

proof fn lemma_usage_args(c: Seq<char>)
    ensures
        usage_args(c).len() > 0,
        usage_args(c)[0] == ' ' || usage_args(c)[0] == '\n',
{
    reveal_strlit(" [options] OUTPUT\n\n");
    reveal_strlit(" [options] [OUTPUT]\n\n");
    reveal_strlit(" [--list] [--target N]\n\n");
    reveal_strlit(" [--list] KEY [KEY ...]\n\n");
    reveal_strlit(" [options] [TEXT ...]\n\n");
    reveal_strlit("\n\n");
    reveal_strlit(" [options]\n\n");
}

/// Each command has its own help: it begins with the command's usage, and is
/// neither the general help nor that of another command.
pub proof fn law_each_command_has_its_own_help(c: Seq<char>, other: Seq<char>)
    requires
        is_command(c),
    ensures
        ({
            let head = "usage: kaimirror "@ + c;
            &&& head.len() <= help_text(Some(c)).len()
            &&& help_text(Some(c)).subrange(0, head.len() as int) == head
        }),
        help_text(Some(c)) != help_text(None),
        is_command(other) && other != c ==> help_text(Some(c)) != help_text(Some(other)),
        !is_command(other) ==> help_text(Some(other)) == help_text(None),
{
    let u = "usage: kaimirror "@;
    let n = u.len() as int;
    let head = u + c;
    let own = help_text(Some(c));
    lemma_command_letters(c);
    lemma_usage_args(c);
    assert(own.subrange(0, head.len() as int) =~= head);
    assert(own[n] == c[0]);
    reveal_strlit("[options] COMMAND [args]\n\n");
    assert(help_text(None)[n] == '[');
    if is_command(other) && other != c {
        let its = help_text(Some(other));
        lemma_command_letters(other);
        lemma_usage_args(other);
        if own == its {
            assert forall|i: int| 0 <= i < c.len() && i < other.len() implies c[i] == other[i] by {
                assert(own[n + i] == c[i]);
                assert(its[n + i] == other[i]);
            }
            if c.len() < other.len() {
                assert(own[n + c.len()] == usage_args(c)[0]);
                assert(its[n + c.len()] == other[c.len() as int]);
            } else if other.len() < c.len() {
                assert(its[n + other.len()] == usage_args(other)[0]);
                assert(own[n + other.len()] == c[other.len() as int]);
            } else {
                assert(c =~= other);
            }
        }
    }
}

proof fn lemma_command_row(c: Seq<char>)
    requires
        is_command(c),
    ensures
        exists|row: int| 0 <= row < COMMANDS@.len() && (#[trigger] COMMANDS@[row]).0@ == c,
{
    if c == "view"@ {
        assert(COMMANDS@[0].0@ == c);
    } else if c == "record"@ {
        assert(COMMANDS@[1].0@ == c);
    } else if c == "shot"@ {
        assert(COMMANDS@[2].0@ == c);
    } else if c == "snapshot"@ {
        assert(COMMANDS@[3].0@ == c);
    } else if c == "key"@ {
        assert(COMMANDS@[4].0@ == c);
    } else if c == "type"@ {
        assert(COMMANDS@[5].0@ == c);
    } else if c == "mode"@ {
        assert(COMMANDS@[6].0@ == c);
    } else {
        assert(COMMANDS@[7].0@ == c);
    }
}

proof fn lemma_command_lines(rows: int, row: int)
    requires
        0 <= row < rows <= COMMANDS@.len(),
    ensures
        holds(command_lines(rows), "  "@ + COMMANDS@[row].0@),
    decreases rows,
{
    let none = Seq::<char>::empty();
    let before = command_lines(rows - 1);
    let name = COMMANDS@[rows - 1].0@;
    let rest = COMMANDS@[rows - 1].1@;
    if row < rows - 1 {
        lemma_command_lines(rows - 1, row);
        lemma_holds_within(none, before, "  "@ + name + rest, "  "@ + COMMANDS@[row].0@);
        assert(none + before + ("  "@ + name + rest) =~= command_lines(rows));
    } else {
        lemma_holds_itself("  "@ + name);
        lemma_holds_within(before, "  "@ + name, rest, "  "@ + name);
        assert(before + ("  "@ + name) + rest =~= command_lines(rows));
    }
}

/// The general help names every command.
pub proof fn law_help_names_every_command(c: Seq<char>)
    requires
        is_command(c),
    ensures
        holds(help_text(None), "  "@ + c),
{
    lemma_command_row(c);
    let row = choose|row: int| 0 <= row < COMMANDS@.len() && (#[trigger] COMMANDS@[row]).0@ == c;
    let n = COMMANDS@.len() as int;
    lemma_command_lines(n, row);
    let a = "usage: kaimirror "@ + "[options] COMMAND [args]\n\n"@ + USAGE@;
    let b = "\n"@ + CAPTURE_OPTS@ + "\n"@ + STREAM_OPTS@ + "\n"@ + USAGE_END@;
    lemma_holds_within(a, command_lines(n), b, "  "@ + c);
    assert(a + command_lines(n) + b =~= help_text(None));
}

/// Every name is in one of the lines.
proof fn lemma_name_lines(all: Seq<Seq<char>>, k: int) -> (line: int)
    requires
        0 <= k < all.len(),
    ensures
        0 <= line < name_lines(all).len(),
        holds(name_lines(all)[line], all[k]),
    decreases all.len(),
{
    let none = Seq::<char>::empty();
    let first = if all.len() <= NAMES_PER_LINE {
        all
    } else {
        all.subrange(0, NAMES_PER_LINE as int)
    };
    if k < first.len() {
        assert(first[k] == all[k]);
        lemma_holds_itself(all[k]);
        lemma_joined_holds(first, ", "@, k, all[k]);
        lemma_holds_within("  "@, joined(first, ", "@), none, all[k]);
        assert("  "@ + joined(first, ", "@) + none =~= "  "@ + joined(first, ", "@));
        assert(name_lines(all)[0] == "  "@ + joined(first, ", "@));
        0
    } else {
        let rest = all.subrange(NAMES_PER_LINE as int, all.len() as int);
        let line = lemma_name_lines(rest, k - NAMES_PER_LINE);
        assert(name_lines(all)[line + 1] == name_lines(rest)[line]);
        line + 1
    }
}

/// The help of `key` holds the name of every key.
pub proof fn law_help_of_key_lists_every_key(row: int)
    requires
        0 <= row < KEYS@.len(),
    ensures
        holds(help_text(Some("key"@)), KEYS@[row].0@),
{
    let name = KEYS@[row].0@;
    let all = sorted_names();
    law_names_are_the_table_in_order();
    assert(table_names()[row] == name);
    table_names().to_multiset_ensures();
    all.to_multiset_ensures();
    assert(table_names().contains(name));
    assert(table_names().to_multiset().contains(name));
    assert(all.contains(name));
    let k = all.index_of(name);
    let line = lemma_name_lines(all, k);
    let list = joined(name_lines(all), "\n"@);
    lemma_joined_holds(name_lines(all), "\n"@, line, name);
    let a = "usage: kaimirror "@ + "key"@ + usage_args("key"@) + KEY_HELP@;
    lemma_holds_within(a, list, "\n"@, name);
    reveal_strlit("key");
    reveal_strlit("view");
    reveal_strlit("record");
    reveal_strlit("shot");
    reveal_strlit("snapshot");
    assert("key"@.len() == 3 && "view"@.len() == 4 && "record"@.len() == 6 && "shot"@.len() == 4
        && "snapshot"@.len() == 8);
    assert(a + list + "\n"@ =~= help_text(Some("key"@)));
}

/// What a command needs of the phone before it runs.
#[derive(PartialEq, Eq, Structural, Clone, Copy, Debug)]
pub enum Prepare {
    /// Nothing: it has nothing to say to a phone.
    Nothing,
    /// The debugging socket, and nothing pressed.
    Socket,
    /// Root alone; the pump is installed when it turns out to be missing.
    Root,
    /// Root and the pump, and a tap on power where that is wanted.
    Capture { wake: bool },
    /// Root, the pump, and a panel that is lit.
    Typing,
}

/// What a command needs of the phone before it runs.
pub open spec fn prepared(cmd: Seq<char>, list: bool, no_wake: bool) -> Prepare {
    if cmd == "key"@ && list {
        Prepare::Nothing
    } else if cmd == "view"@ || cmd == "record"@ || cmd == "shot"@ {
        Prepare::Capture { wake: !no_wake }
    } else if cmd == "type"@ || cmd == "mode"@ {
        Prepare::Typing
    } else if cmd == "snapshot"@ {
        Prepare::Socket
    } else {
        Prepare::Root
    }
}

/// What a command needs of the phone before it runs.  Power toggles, so a
/// typing session lights the panel only where it is dark.
pub fn prepare(cmd: &str, list: bool, no_wake: bool) -> (p: Prepare)
    ensures
        p == prepared(cmd@, list, no_wake),
{
    if same_text(cmd, "key") && list {
        Prepare::Nothing
    } else if same_text(cmd, "view") || same_text(cmd, "record") || same_text(cmd, "shot") {
        Prepare::Capture { wake: !no_wake }
    } else if same_text(cmd, "type") || same_text(cmd, "mode") {
        Prepare::Typing
    } else if same_text(cmd, "snapshot") {
        Prepare::Socket
    } else {
        Prepare::Root
    }
}

/// What the reading of an argument does to the command and the other words: it
/// sets a command where there is none, or adds a word, or leaves both.
proof fn lemma_took(args: Seq<Seq<char>>, c: Choices)
    requires
        args.len() > 0,
    ensures
        took(args, c) matches Took::Next(after, used) ==> {
            &&& used == 1 || (used == 2 && args.len() >= 2)
            &&& c.cmd is Some ==> after.cmd == c.cmd
            &&& after.positionals.len() >= c.positionals.len()
            &&& after.positionals.len() == c.positionals.len() ==> after.positionals
                == c.positionals
        },
{
}

proof fn lemma_read_args_grows(args: Seq<Seq<char>>, c: Choices)
    ensures
        c.cmd is Some ==> read_args(args, c).0.cmd == c.cmd,
        read_args(args, c).0.positionals.len() >= c.positionals.len(),
    decreases args.len(),
{
    if args.len() > 0 {
        lemma_took(args, c);
        if let Took::Next(after, used) = took(args, c) {
            if used == 2 && args.len() >= 2 {
                lemma_read_args_grows(args.subrange(2, args.len() as int), after);
            } else {
                lemma_read_args_grows(args.subrange(1, args.len() as int), after);
            }
        }
    }
}

/// An option is read the same whatever follows its own words, and whatever the
/// command is.
proof fn lemma_option_alone(o: Seq<Seq<char>>, tail: Seq<Seq<char>>, c: Choices, w: Seq<char>)
    requires
        o.len() > 0,
        c.cmd is None,
        took(o, c) matches Took::Next(after, used) && after.cmd is None && after.positionals
            == c.positionals,
    ensures
        took(o + tail, c) == took(o, c),
        ({
            let (after, used) = match took(o, c) {
                Took::Next(a, u) => (a, u),
                Took::Stop(_) => (c, 0),
            };
            took(o + tail, Choices { cmd: Some(w), ..c }) == Took::Next(
                Choices { cmd: Some(w), ..after },
                used,
            )
        }),
{
    let all = o + tail;
    assert(all[0] == o[0]);
    if o.len() > 1 {
        assert(all[1] == o[1]);
    }
    let name = split_arg(o[0]).0;
    assert(c.positionals.push(name).len() != c.positionals.len());
}

/// Options on their own: they can all be read, and there is neither a command
/// nor another word among them.
pub open spec fn only_options(o: Seq<Seq<char>>, c: Choices) -> bool {
    let (after, end) = read_args(o, c);
    end is End && after.cmd == c.cmd && after.positionals == c.positionals
}

proof fn lemma_options_first(o: Seq<Seq<char>>, tail: Seq<Seq<char>>, c: Choices, w: Seq<char>)
    requires
        c.cmd is None,
        only_options(o, c),
    ensures
        read_args(o + tail, c) == read_args(tail, read_args(o, c).0),
        read_args(o + tail, Choices { cmd: Some(w), ..c }) == read_args(
            tail,
            Choices { cmd: Some(w), ..read_args(o, c).0 },
        ),
    decreases o.len(),
{
    if o.len() == 0 {
        assert(o + tail =~= tail);
    } else {
        lemma_took(o, c);
        match took(o, c) {
            Took::Next(after, used) => {
                let rest = o.subrange(used, o.len() as int);
                lemma_read_args_grows(rest, after);
                lemma_option_alone(o, tail, c, w);
                lemma_options_first(rest, tail, after, w);
                assert((o + tail).subrange(used, (o + tail).len() as int) =~= rest + tail);
            },
            Took::Stop(_) => {},
        }
    }
}

proof fn lemma_no_equals(w: Seq<char>)
    requires
        is_command(w),
    ensures
        first_at(w, '=', 0) is None,
        w.len() > 1,
        w[0] != '-',
{
    reveal_strlit("view");
    reveal_strlit("record");
    reveal_strlit("shot");
    reveal_strlit("snapshot");
    reveal_strlit("key");
    reveal_strlit("type");
    reveal_strlit("mode");
    reveal_strlit("wake");
    lemma_first_at(w, '=', 0);
}

proof fn lemma_command_is_taken(w: Seq<char>, rest: Seq<Seq<char>>, c: Choices)
    requires
        is_command(w),
        c.cmd is None,
    ensures
        read_args(seq![w] + rest, c) == read_args(rest, Choices { cmd: Some(w), ..c }),
{
    lemma_no_equals(w);
    reveal_strlit("-h");
    reveal_strlit("--help");
    reveal_strlit("-V");
    reveal_strlit("--version");
    reveal_strlit("--display");
    reveal_strlit("--no-wake");
    reveal_strlit("--control");
    reveal_strlit("--list");
    reveal_strlit("--format");
    reveal_strlit("--fps");
    reveal_strlit("--target");
    reveal_strlit("--scale");
    let args = seq![w] + rest;
    assert(args[0] == w);
    assert(split_arg(w) == (w, None::<Seq<char>>));
    assert(took(args, c) == Took::Next(Choices { cmd: Some(w), ..c }, 1));
    assert(args.subrange(1, args.len() as int) =~= rest);
}

/// Options work on either side of the command.
pub proof fn law_options_on_either_side(o: Seq<Seq<char>>, w: Seq<char>, rest: Seq<Seq<char>>)
    requires
        only_options(o, defaults()),
        is_command(w),
    ensures
        read_args(o + seq![w] + rest, defaults()) == read_args(seq![w] + o + rest, defaults()),
{
    let after = read_args(o, defaults()).0;
    lemma_options_first(o, seq![w] + rest, defaults(), w);
    lemma_command_is_taken(w, rest, after);
    assert(o + seq![w] + rest =~= o + (seq![w] + rest));
    lemma_options_first(o, rest, defaults(), w);
    lemma_command_is_taken(w, o + rest, defaults());
    assert(seq![w] + o + rest =~= seq![w] + (o + rest));
}

/// The options that take a value.
pub open spec fn takes_value(name: Seq<char>) -> bool {
    ||| name == "--display"@
    ||| name == "--format"@
    ||| name == "--fps"@
    ||| name == "--target"@
    ||| name == "--scale"@
}

proof fn lemma_option_names(name: Seq<char>)
    requires
        takes_value(name),
    ensures
        forall|i: int| 0 <= i < name.len() ==> #[trigger] name[i] != '=',
        starts_with_dashes(name),
{
    reveal_strlit("--display");
    reveal_strlit("--format");
    reveal_strlit("--fps");
    reveal_strlit("--target");
    reveal_strlit("--scale");
}

proof fn lemma_equals_behind(name: Seq<char>, v: Seq<char>, i: int)
    requires
        0 <= i <= name.len(),
        forall|k: int| 0 <= k < name.len() ==> #[trigger] name[k] != '=',
    ensures
        first_at(name, '=', i) is None,
        first_at(name + seq!['='] + v, '=', i) == Some(name.len() as int),
    decreases name.len() - i,
{
    let arg = name + seq!['='] + v;
    if i < name.len() {
        lemma_equals_behind(name, v, i + 1);
        assert(arg[i] == name[i]);
    } else {
        assert(arg[i] == '=');
    }
}

/// `--option=value` and `--option value` are the same, wherever they stand.
pub proof fn law_a_value_may_stand_behind_equals(
    x: Seq<Seq<char>>,
    name: Seq<char>,
    v: Seq<char>,
    rest: Seq<Seq<char>>,
)
    requires
        read_args(x, defaults()).1 is End,
        takes_value(name),
    ensures
        read_args(x + seq![name + seq!['='] + v] + rest, defaults()) == read_args(
            x + seq![name, v] + rest,
            defaults(),
        ),
{
    let one = seq![name + seq!['='] + v] + rest;
    let two = seq![name, v] + rest;
    assert(x + seq![name + seq!['='] + v] + rest =~= x + one);
    assert(x + seq![name, v] + rest =~= x + two);
    lemma_read_args_prefix(x, one, defaults());
    lemma_read_args_prefix(x, two, defaults());
    lemma_equals_first(name, v, rest, read_args(x, defaults()).0);
}

proof fn lemma_equals_first(name: Seq<char>, v: Seq<char>, rest: Seq<Seq<char>>, c: Choices)
    requires
        takes_value(name),
    ensures
        read_args(seq![name + seq!['='] + v] + rest, c) == read_args(seq![name, v] + rest, c),
{
    lemma_option_names(name);
    lemma_equals_behind(name, v, 0);
    let arg = name + seq!['='] + v;
    let one = seq![arg] + rest;
    let two = seq![name, v] + rest;
    assert(one[0] == arg && two[0] == name && two[1] == v);
    assert(arg.subrange(0, name.len() as int) =~= name);
    assert(arg.subrange(name.len() as int + 1, arg.len() as int) =~= v);
    assert(split_arg(arg) == (name, Some(v)));
    assert(split_arg(name) == (name, None::<Seq<char>>));
    assert(one.subrange(1, one.len() as int) =~= rest);
    assert(two.subrange(2, two.len() as int) =~= rest);
    reveal_strlit("-h");
    reveal_strlit("--help");
    reveal_strlit("-V");
    reveal_strlit("--version");
    reveal_strlit("--no-wake");
    reveal_strlit("--control");
    reveal_strlit("--list");
    reveal_strlit("--display");
    reveal_strlit("--format");
    reveal_strlit("--fps");
    reveal_strlit("--target");
    reveal_strlit("--scale");
    match (took(one, c), took(two, c)) {
        (Took::Next(a, j), Took::Next(b, k)) => {
            assert(a == b && j == 1 && k == 2);
        },
        _ => {},
    }
}

/// One argument with what belongs to it: an option with its value, if it takes
/// one, or a word.
pub open spec fn whole(p: Seq<Seq<char>>, c: Choices) -> bool {
    p.len() > 0 && (took(p, c) matches Took::Next(after, used) && used == p.len())
}

/// What is chosen after it.
pub open spec fn chosen(p: Seq<Seq<char>>, c: Choices) -> Choices {
    match took(p, c) {
        Took::Next(after, used) => after,
        Took::Stop(_) => c,
    }
}

/// The options that are only there or not.
pub open spec fn is_flag(name: Seq<char>) -> bool {
    name == "--no-wake"@ || name == "--control"@ || name == "--list"@
}

pub open spec fn is_option(name: Seq<char>) -> bool {
    is_flag(name) || takes_value(name)
}

/// The name that an argument is read under.
pub open spec fn name_in(p: Seq<Seq<char>>) -> Seq<char> {
    split_arg(p[0]).0
}

/// Whether an option of this name is among the arguments.
pub open spec fn mentions(args: Seq<Seq<char>>, name: Seq<char>, c: Choices) -> bool
    decreases args.len(),
{
    if args.len() == 0 {
        false
    } else {
        match took(args, c) {
            Took::Stop(_) => false,
            Took::Next(after, used) => name_in(args) == name || mentions(
                if used == 2 && args.len() >= 2 {
                    args.subrange(2, args.len() as int)
                } else {
                    args.subrange(1, args.len() as int)
                },
                name,
                after,
            ),
        }
    }
}

/// What is whole is read the same whatever follows it.
proof fn lemma_whole_alone(p: Seq<Seq<char>>, tail: Seq<Seq<char>>, c: Choices)
    requires
        whole(p, c),
    ensures
        took(p + tail, c) == took(p, c),
        read_args(p + tail, c) == read_args(tail, chosen(p, c)),
{
    let all = p + tail;
    assert(all[0] == p[0]);
    if p.len() > 1 {
        assert(all[1] == p[1]);
    }
    lemma_took(p, c);
    assert(all.subrange(p.len() as int, all.len() as int) =~= tail);
}

/// The first argument of a command line, with what belongs to it, is whole.
proof fn lemma_first_is_whole(args: Seq<Seq<char>>, c: Choices)
    requires
        args.len() > 0,
        took(args, c) is Next,
    ensures
        ({
            let used = took(args, c)->Next_1;
            &&& 1 <= used <= args.len()
            &&& whole(args.subrange(0, used), c)
            &&& chosen(args.subrange(0, used), c) == took(args, c)->Next_0
            &&& name_in(args.subrange(0, used)) == name_in(args)
        }),
{
    lemma_took(args, c);
    let used = took(args, c)->Next_1;
    let p = args.subrange(0, used);
    assert(p[0] == args[0]);
    if used == 2 {
        assert(p[1] == args[1]);
    }
}

/// The value of an option, behind its `=` or in the next argument.
spec fn value_in(p: Seq<Seq<char>>) -> Seq<char> {
    match split_arg(p[0]).1 {
        Some(v) => v,
        None => p[1],
    }
}

/// What an option does to what is chosen.
spec fn with_option(name: Seq<char>, v: Seq<char>, c: Choices) -> Choices {
    if name == "--display"@ {
        Choices {
            display: if v == "0"@ {
                0
            } else {
                1
            },
            ..c
        }
    } else if name == "--no-wake"@ {
        Choices { no_wake: true, ..c }
    } else if name == "--control"@ {
        Choices { control: true, ..c }
    } else if name == "--list"@ {
        Choices { list: true, ..c }
    } else if name == "--format"@ {
        Choices { format: v, ..c }
    } else if name == "--fps"@ {
        Choices { fps: positive_u32(v)->0, ..c }
    } else if name == "--target"@ {
        Choices { target: any_u32(v), ..c }
    } else {
        Choices { scales: c.scales.push(v), ..c }
    }
}

/// What a word does to what is chosen.
spec fn with_word(w: Seq<char>, c: Choices) -> Choices {
    if c.cmd is None && is_command(w) {
        Choices { cmd: Some(w), ..c }
    } else {
        Choices { positionals: c.positionals.push(w), ..c }
    }
}

proof fn lemma_option_effect(o: Seq<Seq<char>>, c: Choices, d: Choices)
    requires
        whole(o, c),
        is_option(name_in(o)),
    ensures
        whole(o, d),
        chosen(o, d) == with_option(name_in(o), value_in(o), d),
{
}

proof fn lemma_word_effect(g: Seq<Seq<char>>, c: Choices, d: Choices)
    requires
        whole(g, c),
        !is_option(name_in(g)),
    ensures
        whole(g, d),
        chosen(g, d) == with_word(name_in(g), d),
{
}

/// Two arguments, one of them an option that the other is not, may change
/// places.
proof fn lemma_swap(o: Seq<Seq<char>>, g: Seq<Seq<char>>, c: Choices)
    requires
        whole(o, c),
        whole(g, c),
        is_option(name_in(o)),
        name_in(g) != name_in(o),
    ensures
        whole(g, chosen(o, c)),
        whole(o, chosen(g, c)),
        chosen(g, chosen(o, c)) == chosen(o, chosen(g, c)),
{
    let after_o = chosen(o, c);
    let after_g = chosen(g, c);
    lemma_option_effect(o, c, c);
    lemma_option_effect(o, c, after_g);
    if is_option(name_in(g)) {
        lemma_option_effect(g, c, c);
        lemma_option_effect(g, c, after_o);
        lemma_options_commute(name_in(o), value_in(o), name_in(g), value_in(g), c);
    } else {
        lemma_word_effect(g, c, c);
        lemma_word_effect(g, c, after_o);
        lemma_word_commutes(name_in(o), value_in(o), name_in(g), c);
    }
}

proof fn lemma_options_commute(
    n: Seq<char>,
    v: Seq<char>,
    m: Seq<char>,
    u: Seq<char>,
    c: Choices,
)
    requires
        n != m,
        is_option(n),
        is_option(m),
    ensures
        with_option(n, v, with_option(m, u, c)) == with_option(m, u, with_option(n, v, c)),
{
}

proof fn lemma_word_commutes(n: Seq<char>, v: Seq<char>, w: Seq<char>, c: Choices)
    ensures
        with_option(n, v, with_word(w, c)) == with_word(w, with_option(n, v, c)),
{
}

/// What is read without a fault is read the same whatever follows it.
proof fn lemma_read_args_prefix(x: Seq<Seq<char>>, tail: Seq<Seq<char>>, c: Choices)
    requires
        read_args(x, c).1 is End,
    ensures
        read_args(x + tail, c) == read_args(tail, read_args(x, c).0),
    decreases x.len(),
{
    if x.len() == 0 {
        assert(x + tail =~= tail);
    } else {
        lemma_first_is_whole(x, c);
        let used = took(x, c)->Next_1;
        let p = x.subrange(0, used);
        let rest = x.subrange(used, x.len() as int);
        lemma_read_args_prefix(rest, tail, chosen(p, c));
        lemma_whole_alone(p, rest + tail, c);
        assert(x + tail =~= p + (rest + tail));
    }
}

proof fn lemma_option_moves(
    o: Seq<Seq<char>>,
    y: Seq<Seq<char>>,
    z: Seq<Seq<char>>,
    c: Choices,
)
    requires
        whole(o, c),
        is_option(name_in(o)),
        read_args(y, c).1 is End,
        !mentions(y, name_in(o), c),
    ensures
        read_args(o + y + z, c) == read_args(y + o + z, c),
    decreases y.len(),
{
    if y.len() == 0 {
        assert(o + y + z =~= o + z);
        assert(y + o + z =~= o + z);
    } else {
        lemma_first_is_whole(y, c);
        let used = took(y, c)->Next_1;
        let g = y.subrange(0, used);
        let rest = y.subrange(used, y.len() as int);
        lemma_took(y, c);
        lemma_swap(o, g, c);
        assert(o + y + z =~= o + (g + (rest + z)));
        lemma_whole_alone(o, g + (rest + z), c);
        lemma_whole_alone(g, rest + z, chosen(o, c));
        assert(y + o + z =~= g + (rest + o + z));
        lemma_whole_alone(g, rest + o + z, c);
        lemma_option_moves(o, rest, z, chosen(g, c));
        assert(o + rest + z =~= o + (rest + z));
        lemma_whole_alone(o, rest + z, chosen(g, c));
    }
}

/// An option may stand anywhere between arguments, as long as it is not put
/// between another option and its value: with `x` in front of it, it may stand
/// before or behind `y`, whatever words and other options `y` holds, and
/// whatever follows.
pub proof fn law_an_option_may_stand_anywhere(
    x: Seq<Seq<char>>,
    o: Seq<Seq<char>>,
    y: Seq<Seq<char>>,
    z: Seq<Seq<char>>,
)
    requires
        read_args(x, defaults()).1 is End,
        whole(o, read_args(x, defaults()).0),
        is_option(name_in(o)),
        read_args(y, read_args(x, defaults()).0).1 is End,
        !mentions(y, name_in(o), read_args(x, defaults()).0),
    ensures
        read_args(x + o + y + z, defaults()) == read_args(x + y + o + z, defaults()),
{
    let c = read_args(x, defaults()).0;
    assert(x + o + y + z =~= x + (o + y + z));
    assert(x + y + o + z =~= x + (y + o + z));
    lemma_read_args_prefix(x, o + y + z, defaults());
    lemma_read_args_prefix(x, y + o + z, defaults());
    lemma_option_moves(o, y, z, c);
}

/// The names of the options are different from each other, and hold no `=`.
proof fn lemma_names()
    ensures
        first_at("-h"@, '=', 0) is None,
        first_at("--help"@, '=', 0) is None,
        first_at("-V"@, '=', 0) is None,
        first_at("--version"@, '=', 0) is None,
        first_at("--display"@, '=', 0) is None,
        first_at("--no-wake"@, '=', 0) is None,
        first_at("--control"@, '=', 0) is None,
        first_at("--list"@, '=', 0) is None,
        first_at("--format"@, '=', 0) is None,
        first_at("--fps"@, '=', 0) is None,
        first_at("--target"@, '=', 0) is None,
        first_at("--scale"@, '=', 0) is None,
        "-h"@.len() == 2 && "-V"@.len() == 2 && "-h"@[1] == 'h' && "-V"@[1] == 'V',
        "--help"@.len() == 6 && "--list"@.len() == 6 && "--help"@[2] == 'h' && "--list"@[2] == 'l',
        "--version"@.len() == 9 && "--version"@[2] == 'v',
        "--display"@.len() == 9 && "--display"@[2] == 'd',
        "--no-wake"@.len() == 9 && "--no-wake"@[2] == 'n',
        "--control"@.len() == 9 && "--control"@[2] == 'c',
        "--format"@.len() == 8 && "--target"@.len() == 8 && "--format"@[2] == 'f' && "--target"@[2]
            == 't',
        "--fps"@.len() == 5 && "--scale"@.len() == 7,
        "-h"@[0] == '-' && "--help"@[0] == '-' && "-V"@[0] == '-' && "--version"@[0] == '-',
        "--display"@[0] == '-' && "--no-wake"@[0] == '-' && "--control"@[0] == '-',
        "--list"@[0] == '-' && "--format"@[0] == '-' && "--fps"@[0] == '-',
        "--target"@[0] == '-' && "--scale"@[0] == '-',
{
    reveal_strlit("-h");
    reveal_strlit("--help");
    reveal_strlit("-V");
    reveal_strlit("--version");
    reveal_strlit("--display");
    reveal_strlit("--no-wake");
    reveal_strlit("--control");
    reveal_strlit("--list");
    reveal_strlit("--format");
    reveal_strlit("--fps");
    reveal_strlit("--target");
    reveal_strlit("--scale");
    lemma_first_at("-h"@, '=', 0);
    lemma_first_at("--help"@, '=', 0);
    lemma_first_at("-V"@, '=', 0);
    lemma_first_at("--version"@, '=', 0);
    lemma_first_at("--display"@, '=', 0);
    lemma_first_at("--no-wake"@, '=', 0);
    lemma_first_at("--control"@, '=', 0);
    lemma_first_at("--list"@, '=', 0);
    lemma_first_at("--format"@, '=', 0);
    lemma_first_at("--fps"@, '=', 0);
    lemma_first_at("--target"@, '=', 0);
    lemma_first_at("--scale"@, '=', 0);
}

proof fn lemma_two_words(name: Seq<char>, v: Seq<char>, rest: Seq<Seq<char>>)
    ensures
        (seq![name, v] + rest)[0] == name,
        (seq![name, v] + rest)[1] == v,
        (seq![name, v] + rest).len() == rest.len() + 2,
        (seq![name, v] + rest).subrange(2, rest.len() as int + 2) == rest,
        (seq![name] + rest)[0] == name,
        (seq![name] + rest).len() == rest.len() + 1,
        (seq![name] + rest).subrange(1, rest.len() as int + 1) == rest,
{
    assert((seq![name, v] + rest).subrange(2, rest.len() as int + 2) =~= rest);
    assert((seq![name] + rest).subrange(1, rest.len() as int + 1) =~= rest);
}

/// `--fps` takes every number from one up to what 32 bits hold, and changes
/// nothing else; any other number, and what is no number, is refused.
pub proof fn law_any_frame_rate_may_be_asked_for(
    n: nat,
    v: Seq<char>,
    rest: Seq<Seq<char>>,
    c: Choices,
)
    ensures
        1 <= n <= u32::MAX ==> read_args(seq!["--fps"@, decimal(n)] + rest, c) == read_args(
            rest,
            Choices { fps: n as u32, ..c },
        ),
        !(1 <= n <= u32::MAX) ==> read_args(seq!["--fps"@, decimal(n)] + rest, c) == (
            c,
            Ended::Bad(Wrong::Fps(decimal(n))),
        ),
        unsigned(v) is None ==> read_args(seq!["--fps"@, v] + rest, c) == (
            c,
            Ended::Bad(Wrong::Fps(v)),
        ),
{
    lemma_names();
    law_decimal_reads_back(n);
    lemma_two_words("--fps"@, decimal(n), rest);
    lemma_two_words("--fps"@, v, rest);
}

/// `--target` takes every number that 32 bits hold, and changes nothing else.
pub proof fn law_any_window_may_be_asked_for(
    n: nat,
    v: Seq<char>,
    rest: Seq<Seq<char>>,
    c: Choices,
)
    ensures
        n <= u32::MAX ==> read_args(seq!["--target"@, decimal(n)] + rest, c) == read_args(
            rest,
            Choices { target: Some(n as u32), ..c },
        ),
        n > u32::MAX ==> read_args(seq!["--target"@, decimal(n)] + rest, c) == (
            c,
            Ended::Bad(Wrong::Target(decimal(n))),
        ),
        unsigned(v) is None ==> read_args(seq!["--target"@, v] + rest, c) == (
            c,
            Ended::Bad(Wrong::Target(v)),
        ),
{
    lemma_names();
    law_decimal_reads_back(n);
    lemma_two_words("--target"@, decimal(n), rest);
    lemma_two_words("--target"@, v, rest);
}

/// The other options that take a value: there are two displays and two formats,
/// and anything may be given as a scale, once or more; nothing else changes.
pub proof fn law_what_the_other_values_do(v: Seq<char>, rest: Seq<Seq<char>>, c: Choices)
    ensures
        read_args(seq!["--display"@, v] + rest, c) == (if v =~= seq!['0'] {
            read_args(rest, Choices { display: 0, ..c })
        } else if v =~= seq!['1'] {
            read_args(rest, Choices { display: 1, ..c })
        } else {
            (c, Ended::Bad(Wrong::Display(v)))
        }),
        read_args(seq!["--format"@, v] + rest, c) == (if v =~= seq!['r', 'a', 'w'] || v =~= seq![
            'p',
            'n',
            'g',
        ] {
            read_args(rest, Choices { format: v, ..c })
        } else {
            (c, Ended::Bad(Wrong::Format(v)))
        }),
        read_args(seq!["--scale"@, v] + rest, c) == read_args(
            rest,
            Choices { scales: c.scales.push(v), ..c },
        ),
{
    lemma_names();
    reveal_strlit("0");
    reveal_strlit("1");
    reveal_strlit("raw");
    reveal_strlit("png");
    assert("0"@ =~= seq!['0'] && "1"@ =~= seq!['1'] && "raw"@ =~= seq!['r', 'a', 'w'] && "png"@
        =~= seq!['p', 'n', 'g']);
    lemma_two_words("--display"@, v, rest);
    lemma_two_words("--format"@, v, rest);
    lemma_two_words("--scale"@, v, rest);
    assert(seq!['0'][0] == '0' && seq!['1'][0] == '1');
}

/// A flag sets what it names and nothing else, and takes no value.
pub proof fn law_what_the_flags_do(rest: Seq<Seq<char>>, c: Choices)
    ensures
        read_args(seq!["--no-wake"@] + rest, c) == read_args(rest, Choices { no_wake: true, ..c }),
        read_args(seq!["--control"@] + rest, c) == read_args(rest, Choices { control: true, ..c }),
        read_args(seq!["--list"@] + rest, c) == read_args(rest, Choices { list: true, ..c }),
{
    lemma_names();
    lemma_two_words("--no-wake"@, seq![], rest);
    lemma_two_words("--control"@, seq![], rest);
    lemma_two_words("--list"@, seq![], rest);
}

/// Help and the version end the reading with what was chosen so far; help is
/// that of the command, where one was given.
pub proof fn law_help_and_version_end_the_reading(rest: Seq<Seq<char>>, c: Choices)
    ensures
        read_args(seq!["-h"@] + rest, c) == (c, Ended::Help(c.cmd)),
        read_args(seq!["--help"@] + rest, c) == (c, Ended::Help(c.cmd)),
        read_args(seq!["-V"@] + rest, c) == (c, Ended::Version),
        read_args(seq!["--version"@] + rest, c) == (c, Ended::Version),
{
    lemma_names();
    lemma_two_words("-h"@, seq![], rest);
    lemma_two_words("--help"@, seq![], rest);
    lemma_two_words("-V"@, seq![], rest);
    lemma_two_words("--version"@, seq![], rest);
}

/// An option that takes a value, and has none because it is the last word, is
/// refused under its name.
pub proof fn law_a_last_option_lacks_its_value(c: Choices)
    ensures
        read_args(seq!["--display"@], c) == (c, Ended::Bad(Wrong::NeedsValue("--display"@))),
        read_args(seq!["--format"@], c) == (c, Ended::Bad(Wrong::NeedsValue("--format"@))),
        read_args(seq!["--fps"@], c) == (c, Ended::Bad(Wrong::NeedsValue("--fps"@))),
        read_args(seq!["--target"@], c) == (c, Ended::Bad(Wrong::NeedsValue("--target"@))),
        read_args(seq!["--scale"@], c) == (c, Ended::Bad(Wrong::NeedsValue("--scale"@))),
{
    lemma_names();
    assert(seq!["--display"@][0] == "--display"@);
    assert(seq!["--format"@][0] == "--format"@);
    assert(seq!["--fps"@][0] == "--fps"@);
    assert(seq!["--target"@][0] == "--target"@);
    assert(seq!["--scale"@][0] == "--scale"@);
}

/// What does not begin with a dash is no option, and neither is a dash alone:
/// the first such word that is a command is the command, and the rest are kept
/// in order.
pub proof fn law_words_are_kept_in_order(w: Seq<char>, rest: Seq<Seq<char>>, c: Choices)
    requires
        w.len() <= 1 || w[0] != '-',
    ensures
        read_args(seq![w] + rest, c) == (if c.cmd is None && (w == "view"@ || w == "record"@ || w
            == "shot"@ || w == "snapshot"@ || w == "key"@ || w == "type"@ || w == "mode"@ || w
            == "wake"@) {
            read_args(rest, Choices { cmd: Some(w), ..c })
        } else {
            read_args(rest, Choices { positionals: c.positionals.push(w), ..c })
        }),
{
    lemma_names();
    lemma_two_words(w, seq![], rest);
    lemma_first_at(w, '=', 0);
    if let Some(i) = first_at(w, '=', 0) {
        if starts_with_dashes(w.subrange(0, i)) {
            assert(w.subrange(0, i)[0] == w[0]);
        }
    }
    assert(split_arg(w) == (w, None::<Seq<char>>));
}

/// Anything else that begins with a dash is refused, under its name.
pub proof fn law_an_unknown_option_is_refused(w: Seq<char>, rest: Seq<Seq<char>>, c: Choices)
    requires
        w.len() > 1,
        w[0] == '-',
        !w.contains('='),
        w != "-h"@ && w != "--help"@ && w != "-V"@ && w != "--version"@,
        w != "--display"@ && w != "--no-wake"@ && w != "--control"@ && w != "--list"@,
        w != "--format"@ && w != "--fps"@ && w != "--target"@ && w != "--scale"@,
    ensures
        read_args(seq![w] + rest, c) == (c, Ended::Bad(Wrong::Unknown(w))),
        w[1] == '-' ==> forall|v: Seq<char>|
            read_args(#[trigger] (seq![w + seq!['='] + v]) + rest, c) == (
                c,
                Ended::Bad(Wrong::Unknown(w)),
            ),
{
    lemma_two_words(w, seq![], rest);
    lemma_equals_behind(w, seq![], 0);
    if w[1] == '-' {
        assert forall|v: Seq<char>|
            read_args(#[trigger] (seq![w + seq!['='] + v]) + rest, c) == (
                c,
                Ended::Bad(Wrong::Unknown(w)),
            ) by {
            let arg = w + seq!['='] + v;
            lemma_equals_behind(w, v, 0);
            lemma_two_words(arg, seq![], rest);
            assert(arg.subrange(0, w.len() as int) =~= w);
        }
    }
}

/// What each command needs of the phone.  Only the listing of the keys needs
/// none; only what reads the screen taps power, and not where that is unwanted;
/// and a command that presses keys for text finds out for itself whether the
/// panel is lit.
pub proof fn law_what_commands_need(list: bool, no_wake: bool)
    ensures
        prepared("view"@, list, no_wake) == (Prepare::Capture { wake: !no_wake }),
        prepared("record"@, list, no_wake) == (Prepare::Capture { wake: !no_wake }),
        prepared("shot"@, list, no_wake) == (Prepare::Capture { wake: !no_wake }),
        prepared("type"@, list, no_wake) == Prepare::Typing,
        prepared("mode"@, list, no_wake) == Prepare::Typing,
        prepared("snapshot"@, list, no_wake) == Prepare::Socket,
        prepared("wake"@, list, no_wake) == Prepare::Root,
        prepared("key"@, list, no_wake) == (if list {
            Prepare::Nothing
        } else {
            Prepare::Root
        }),
{
    reveal_strlit("view");
    reveal_strlit("record");
    reveal_strlit("shot");
    reveal_strlit("snapshot");
    reveal_strlit("key");
    reveal_strlit("type");
    reveal_strlit("mode");
    reveal_strlit("wake");
    assert("view"@.len() == 4 && "shot"@.len() == 4 && "type"@.len() == 4 && "mode"@.len() == 4
        && "wake"@.len() == 4 && "record"@.len() == 6 && "snapshot"@.len() == 8 && "key"@.len()
        == 3);
    assert("view"@[0] == 'v' && "shot"@[0] == 's' && "type"@[0] == 't' && "mode"@[0] == 'm'
        && "wake"@[0] == 'w');
}

/// A single dash is no option that takes a value behind `=`: such a word is
/// refused as a whole.
pub proof fn law_a_single_dash_is_not_taken_apart(w: Seq<char>, rest: Seq<Seq<char>>, c: Choices)
    requires
        w.len() > 1,
        w[0] == '-',
        w[1] != '-',
        w != "-h"@ && w != "-V"@,
    ensures
        read_args(seq![w] + rest, c) == (c, Ended::Bad(Wrong::Unknown(w))),
{
    reveal_strlit("--help");
    reveal_strlit("--version");
    reveal_strlit("--display");
    reveal_strlit("--no-wake");
    reveal_strlit("--control");
    reveal_strlit("--list");
    reveal_strlit("--format");
    reveal_strlit("--fps");
    reveal_strlit("--target");
    reveal_strlit("--scale");
    lemma_two_words(w, seq![], rest);
    lemma_first_at(w, '=', 0);
    if let Some(i) = first_at(w, '=', 0) {
        if starts_with_dashes(w.subrange(0, i)) {
            assert(w.subrange(0, i)[1] == w[1]);
        }
    }
    assert(split_arg(w) == (w, None::<Seq<char>>));
    assert("--help"@[1] == '-' && "--version"@[1] == '-' && "--display"@[1] == '-'
        && "--no-wake"@[1] == '-' && "--control"@[1] == '-' && "--list"@[1] == '-'
        && "--format"@[1] == '-' && "--fps"@[1] == '-' && "--target"@[1] == '-' && "--scale"@[1]
        == '-');
}

/// What is chosen where nothing is said: the first display, raw frames at 30 a
/// second, and nothing else.
pub proof fn law_what_is_chosen_by_default()
    ensures
        ({
            let (c, end) = read_args(seq![], defaults());
            &&& end is End
            &&& c.cmd is None && c.target is None
            &&& c.display == 0 && c.fps == 30 && c.format == "raw"@
            &&& !c.no_wake && !c.control && !c.list
            &&& c.scales.len() == 0 && c.positionals.len() == 0
        }),
{
}

/// An error says what was given: it ends with that, and begins with the name of
/// the option that it was given to.
pub proof fn law_an_error_shows_what_was_given(v: Seq<char>, shown: Seq<char>)
    ensures
        wrong_value(Wrong::NeedsValue(v)) == v,
        wrong_value(Wrong::Display(v)) == v && begins(wrong_text(Wrong::Display(v), shown), "--display"@)
            && ends(wrong_text(Wrong::Display(v), shown), shown),
        wrong_value(Wrong::Format(v)) == v && begins(wrong_text(Wrong::Format(v), shown), "--format"@)
            && ends(wrong_text(Wrong::Format(v), shown), shown),
        wrong_value(Wrong::Fps(v)) == v && begins(wrong_text(Wrong::Fps(v), shown), "--fps"@) && ends(
            wrong_text(Wrong::Fps(v), shown),
            shown,
        ),
        wrong_value(Wrong::Scale(v)) == v && begins(wrong_text(Wrong::Scale(v), shown), "--scale"@)
            && ends(wrong_text(Wrong::Scale(v), shown), shown),
        wrong_value(Wrong::Target(v)) == v && begins(wrong_text(Wrong::Target(v), shown), "--target"@)
            && ends(wrong_text(Wrong::Target(v), shown), shown),
        wrong_value(Wrong::Unknown(v)) == v && begins(
            wrong_text(Wrong::Unknown(v), shown),
            "unknown option"@,
        ) && ends(wrong_text(Wrong::Unknown(v), shown), shown),
        begins(wrong_text(Wrong::NeedsValue(v), shown), v) && ends(
            wrong_text(Wrong::NeedsValue(v), shown),
            " needs a value"@,
        ),
{
    reveal_strlit("--display");
    reveal_strlit("--format");
    reveal_strlit("--fps");
    reveal_strlit("--scale");
    reveal_strlit("--target");
    reveal_strlit("unknown option");
    reveal_strlit("--display must be 0 or 1, got ");
    reveal_strlit("--format must be raw or png, got ");
    reveal_strlit("--fps must be a positive integer, got ");
    reveal_strlit("--scale must be a positive number, got ");
    reveal_strlit("--target must be the number of a target, got ");
    reveal_strlit("unknown option ");
    lemma_begins_and_ends("--display must be 0 or 1, got "@, shown, "--display"@);
    lemma_begins_and_ends("--format must be raw or png, got "@, shown, "--format"@);
    lemma_begins_and_ends("--fps must be a positive integer, got "@, shown, "--fps"@);
    lemma_begins_and_ends("--scale must be a positive number, got "@, shown, "--scale"@);
    lemma_begins_and_ends("--target must be the number of a target, got "@, shown, "--target"@);
    lemma_begins_and_ends("unknown option "@, shown, "unknown option"@);
    lemma_begins_and_ends(v, " needs a value"@, v);
}

pub open spec fn begins(s: Seq<char>, part: Seq<char>) -> bool {
    part.len() <= s.len() && s.take(part.len() as int) =~= part
}

pub open spec fn ends(s: Seq<char>, part: Seq<char>) -> bool {
    part.len() <= s.len() && s.skip(s.len() - part.len()) =~= part
}

proof fn lemma_begins_and_ends(head: Seq<char>, tail: Seq<char>, part: Seq<char>)
    requires
        begins(head, part),
    ensures
        begins(head + tail, part),
        ends(head + tail, tail),
{
    let s = head + tail;
    assert forall|i: int| 0 <= i < part.len() implies #[trigger] s.take(part.len() as int)[i]
        == part[i] by {
        assert(head.take(part.len() as int)[i] == part[i]);
    }
    assert(s.skip(s.len() - tail.len()) =~= tail);
}

/// The names are listed eight to a line, in order, with the rest on the last.
pub proof fn law_eight_names_to_a_line(all: Seq<Seq<char>>, k: int)
    requires
        0 <= k,
        8 * k < all.len(),
    ensures
        k < name_lines(all).len(),
        8 * (name_lines(all).len() - 1) < all.len() <= 8 * name_lines(all).len(),
        name_lines(all)[k] == "  "@ + joined(
            all.subrange(
                8 * k,
                if 8 * k + 8 <= all.len() {
                    8 * k + 8
                } else {
                    all.len() as int
                },
            ),
            ", "@,
        ),
    decreases all.len(),
{
    if all.len() <= 8 {
        assert(k == 0);
        assert(all.subrange(0, all.len() as int) =~= all);
    } else {
        let rest = all.subrange(8, all.len() as int);
        law_eight_names_to_a_line(
            rest,
            if k > 0 {
                k - 1
            } else {
                0
            },
        );
        if k > 0 {
            let end = if 8 * k + 8 <= all.len() {
                8 * k + 8
            } else {
                all.len() as int
            };
            assert(rest.subrange(8 * (k - 1), end - 8) =~= all.subrange(8 * k, end));
        }
    }
}

} // verus!
