//! Driving the phone from the terminal: what a keystroke means, and what it
//! leads to.
use vstd::prelude::*;
use crate::controller::{backspaced, failure_text, Controller, Failure, Hand, ReachError};
use crate::keypad::{
    all_typeable, finish, idle, landed, law_typing_round_trip, planned_text, run, Device,
};
use crate::keys::{
    from_keystroke, keystroke, law_a_digit_is_its_own_key, law_single_keystrokes,
};
use crate::multitap::{
    fresh, planned, settling, steps_view, typeable, Step, StepView, Taps,
};
use crate::text::{chars_of, decimal, push_decimal, same_text};

verus! {

/// Which of the two a keystroke drives.
///
/// They cannot be one mode: navigation needs `m` to mean MENU, and typing
/// needs it to mean "m".  Tab switches, the way the phone's own keypad goes
/// between navigating a list and typing into a field.
#[derive(PartialEq, Eq, Structural, Clone, Copy, Debug)]
pub enum Mode {
    Nav,
    Text,
}

/// What a keystroke means.
#[derive(PartialEq, Debug)]
pub enum Action {
    Quit,
    Toggle,
    /// A named key on the phone's keypad.
    Nav(&'static str),
    Type(char),
    Enter,
    Backspace,
    Ignore,
}

/// The same as contracts speak of it.
pub enum Meaning {
    Quit,
    Toggle,
    Nav(Seq<char>),
    Type(char),
    Enter,
    Backspace,
    Ignore,
}

impl View for Action {
    type V = Meaning;

    open spec fn view(&self) -> Meaning {
        match *self {
            Action::Quit => Meaning::Quit,
            Action::Toggle => Meaning::Toggle,
            Action::Nav(k) => Meaning::Nav(k@),
            Action::Type(c) => Meaning::Type(c),
            Action::Enter => Meaning::Enter,
            Action::Backspace => Meaning::Backspace,
            Action::Ignore => Meaning::Ignore,
        }
    }
}

/// Escape, which alone is a key and otherwise starts a sequence.
pub const ESC: u8 = 0x1b;

pub open spec fn is_ascii_char(c: char) -> bool {
    c as u32 <= 0x7f
}

/// What a keystroke means in a mode.  Esc and Ctrl-C quit from either, and Tab
/// switches either way.  Escape sequences navigate in both: the arrows and the
/// navigation cluster mean nothing to a text field.
pub open spec fn meaning(seq: Seq<char>, mode: Mode) -> Meaning {
    if seq == "\x03"@ || seq == "\x1b"@ {
        Meaning::Quit
    } else if seq == "\t"@ {
        Meaning::Toggle
    } else if mode == Mode::Text && !(seq.len() > 0 && seq[0] == '\x1b') {
        if seq == "\r"@ || seq == "\n"@ {
            Meaning::Enter
        } else if seq == "\x7f"@ || seq == "\x08"@ {
            Meaning::Backspace
        } else if seq.len() > 0 && is_ascii_char(seq[0]) {
            Meaning::Type(seq[0])
        } else {
            Meaning::Ignore
        }
    } else {
        match keystroke(seq) {
            Some(k) => Meaning::Nav(k),
            None => Meaning::Ignore,
        }
    }
}

/// What a keystroke means, given which mode the terminal is in.
pub fn dispatch(seq: &str, mode: Mode) -> (action: Action)
    ensures
        action@ == meaning(seq@, mode),
{
    if same_text(seq, "\x03") || same_text(seq, "\x1b") {
        return Action::Quit;
    }
    if same_text(seq, "\t") {
        return Action::Toggle;
    }
    let chars = chars_of(seq);
    let escaped = chars.len() > 0 && chars[0] == '\x1b';
    if mode == Mode::Text && !escaped {
        if same_text(seq, "\r") || same_text(seq, "\n") {
            return Action::Enter;
        }
        if same_text(seq, "\x7f") || same_text(seq, "\x08") {
            return Action::Backspace;
        }
        if chars.len() > 0 && chars[0] as u32 <= 0x7f {
            return Action::Type(chars[0]);
        }
        return Action::Ignore;
    }
    match from_keystroke(seq) {
        Some(name) => Action::Nav(name),
        None => Action::Ignore,
    }
}

/// A keystroke being read byte by byte.
///
/// A sequence is ESC, `[`, parameters and a final byte from 0x40 to 0x7e, so
/// it is read until that byte arrives, or until nothing more does.
pub struct Gather {
    seq: String,
    /// How many more bytes may belong to it.
    left: u32,
}

/// The same as contracts speak of it.
pub struct Gathered {
    pub seq: Seq<char>,
    pub left: nat,
}

/// How many bytes are read after an ESC at most.
pub const MAX_AFTER_ESC: u32 = 8;

impl View for Gather {
    type V = Gathered;

    closed spec fn view(&self) -> Gathered {
        Gathered { seq: self.seq@, left: self.left as nat }
    }
}

pub open spec fn gather_start(first: u8) -> Gathered {
    Gathered {
        seq: seq![first as char],
        left: if first == ESC {
            MAX_AFTER_ESC as nat
        } else {
            0
        },
    }
}

/// One more byte, or none in time.  A final byte ends the sequence, but not
/// the `[` that comes right behind the ESC.
pub open spec fn gather_next(g: Gathered, byte: Option<u8>) -> Gathered {
    match byte {
        None => Gathered { seq: g.seq, left: 0 },
        Some(b) => {
            let seq = g.seq.push(b as char);
            Gathered {
                seq,
                left: if seq.len() > 2 && 0x40 <= b <= 0x7e {
                    0
                } else {
                    (g.left - 1) as nat
                },
            }
        },
    }
}

impl Gather {
    pub fn start(first: u8) -> (g: Gather)
        ensures
            g@ == gather_start(first),
    {
        let mut seq = String::new();
        seq.push(first as char);
        proof {
            assert(seq@ =~= seq![first as char]);
        }
        Gather {
            seq,
            left: if first == ESC {
                MAX_AFTER_ESC
            } else {
                0
            },
        }
    }

    /// Whether another byte may belong to this keystroke.
    pub fn wants_more(&self) -> (yes: bool)
        ensures
            yes == (self@.left > 0),
    {
        self.left > 0
    }

    /// Take the next byte, or None where nothing more arrived in time.
    pub fn take(&mut self, byte: Option<u8>)
        requires
            old(self)@.left > 0,
        ensures
            final(self)@ == gather_next(old(self)@, byte),
    {
        match byte {
            None => {
                self.left = 0;
            },
            Some(b) => {
                let long = self.seq.as_str().unicode_len() >= 2;
                self.seq.push(b as char);
                if long && 0x40 <= b && b <= 0x7e {
                    self.left = 0;
                } else {
                    self.left = self.left - 1;
                }
            },
        }
    }

    pub fn keystroke(&self) -> (seq: &str)
        ensures
            seq@ == self@.seq,
    {
        self.seq.as_str()
    }
}

pub const NAV_HELP: &'static str =
    "control: TYPE IN THIS TERMINAL -- the mirror window keeps its own keystrokes.\n\
     \x20        arrows/enter navigate, backspace=back, Ins/PgUp=soft keys,\n\
     \x20        Del=call, PgDn=red, m=menu, Esc=quit.  Digits are the\n\
     \x20        keypad keys -- in a text field they multi-tap, so type\n\
     \x20        digits in text mode.\n\
     \x20        TAB switches to text mode, where letters type on the phone.\n\
     \x20        each forwarded key is echoed below.";

pub const TEXT_HELP: &'static str =
    "  [text mode] letters, digits and symbols type on the phone; tab returns to nav, Esc quits.";

/// Shown where there is nothing to type: a session that is in text mode from
/// the first keystroke.
pub const TYPE_HELP: &'static str =
    "typing: TYPE IN THIS TERMINAL and the letters land on the phone.  Focus a\n\
     \x20       text field there first, and leave the panel lit.\n\
     \x20       Each character is a burst of keypad taps, so it lands about a\n\
     \x20       second behind you and a change of case costs a few more --\n\
     \x20       keep typing, nothing is dropped.\n\
     \x20       backspace deletes, enter presses OK, Ins/PgUp are the soft\n\
     \x20       keys and arrows move the caret -- all of which keep working\n\
     \x20       while typing.  TAB switches to nav mode, Esc quits.";

/// A session at the terminal: the mode it is in, and the hand that types.
pub struct Session {
    mode: Mode,
    ctl: Controller,
}

/// The same as contracts speak of it.
pub struct Desk {
    pub mode: Mode,
    pub hand: Hand,
}

impl View for Session {
    type V = Desk;

    closed spec fn view(&self) -> Desk {
        Desk { mode: self.mode, hand: self.ctl@ }
    }
}

/// What a keystroke leads to.
pub enum Reaction {
    /// End the session and the mirror with it.
    Quit,
    /// Carry out the steps, then print the line.
    Do { steps: Vec<Step>, say: String },
    /// Type a character, and then ask `Session::typed` what follows.
    Type { ch: char, steps: Vec<Step> },
    Nothing,
}

/// The same as contracts speak of it.
pub enum Response {
    Quit,
    Do { steps: Seq<StepView>, say: Seq<char> },
    Type { ch: char, steps: Seq<StepView> },
    Nothing,
}

impl View for Reaction {
    type V = Response;

    open spec fn view(&self) -> Response {
        match *self {
            Reaction::Quit => Response::Quit,
            Reaction::Do { steps, say } => Response::Do { steps: steps_view(steps@), say: say@ },
            Reaction::Type { ch, steps } => Response::Type { ch, steps: steps_view(steps@) },
            Reaction::Nothing => Response::Nothing,
        }
    }
}

/// What a keystroke leads to, and the session after it.
///
/// Leaving text mode lets the last character land first, since a navigation
/// key would edit it.  Each key that is forwarded is echoed.
pub open spec fn responded(d: Desk, seq: Seq<char>) -> (Desk, Response) {
    let hand = d.hand;
    let settled = Hand { tap: fresh(), ..hand };
    match meaning(seq, d.mode) {
        Meaning::Quit => (d, Response::Quit),
        Meaning::Toggle => if d.mode == Mode::Text {
            (
                Desk { mode: Mode::Nav, hand: settled },
                Response::Do { steps: settling(hand.tap), say: "  [nav mode]"@ },
            )
        } else {
            (Desk { mode: Mode::Text, hand }, Response::Do { steps: seq![], say: TEXT_HELP@ })
        },
        Meaning::Nav(name) => (
            Desk { mode: d.mode, hand: Hand { no_field: false, ..hand } },
            Response::Do { steps: seq![StepView::Key(name)], say: "  -> "@ + name },
        ),
        Meaning::Type(ch) => match planned(hand.tap, ch) {
            Some((tap, steps)) => (
                Desk { mode: d.mode, hand: Hand { tap, ..hand } },
                Response::Type { ch, steps },
            ),
            None => (d, Response::Nothing),
        },
        Meaning::Enter => (
            Desk { mode: d.mode, hand: Hand { tap: Taps { last: None, ..hand.tap }, ..hand } },
            Response::Do { steps: seq![StepView::Key("OK"@)], say: "  -> ENTER"@ },
        ),
        Meaning::Backspace => (
            Desk { mode: d.mode, hand: settled },
            Response::Do { steps: backspaced(hand.tap), say: "  -> BACKSPACE"@ },
        ),
        Meaning::Ignore => (d, Response::Nothing),
    }
}

impl Session {
    pub fn new(start: Mode) -> (s: Session)
        ensures
            s@ == (Desk {
                mode: start,
                hand: Hand { ring: None, tap: fresh(), no_field: false },
            }),
            s@.hand.valid(),
    {
        Session { mode: start, ctl: Controller::new() }
    }

    /// The hand that types, for reaching a case.
    pub fn controller(&mut self) -> (c: &mut Controller)
        ensures
            c@ == old(self)@.hand,
            final(self)@ == (Desk { hand: final(c)@, ..old(self)@ }),
    {
        &mut self.ctl
    }

    /// What a keystroke leads to.
    pub fn keystroke(&mut self, seq: &str) -> (reaction: Reaction)
        ensures
            (final(self)@, reaction@) == responded(old(self)@, seq@),
    {
        match dispatch(seq, self.mode) {
            Action::Quit => Reaction::Quit,
            Action::Toggle => {
                if self.mode == Mode::Text {
                    let steps = self.ctl.settle_typing();
                    self.mode = Mode::Nav;
                    Reaction::Do { steps, say: "  [nav mode]".to_string() }
                } else {
                    self.mode = Mode::Text;
                    let steps: Vec<Step> = Vec::new();
                    proof {
                        assert(steps_view(steps@) =~= seq![]);
                    }
                    Reaction::Do { steps, say: TEXT_HELP.to_string() }
                }
            },
            Action::Nav(name) => {
                self.ctl.note_navigation();
                let mut steps: Vec<Step> = Vec::new();
                steps.push(Step::Key(name));
                let mut say = String::new();
                say.append("  -> ");
                say.append(name);
                proof {
                    assert(steps_view(steps@) =~= seq![StepView::Key(name@)]);
                    assert(say@ =~= "  -> "@ + name@);
                }
                Reaction::Do { steps, say }
            },
            Action::Type(ch) => match self.ctl.type_char(ch) {
                Some(steps) => Reaction::Type { ch, steps },
                None => Reaction::Nothing,
            },
            Action::Enter => {
                let steps = match self.ctl.type_char('\n') {
                    Some(steps) => steps,
                    None => Vec::new(),
                };
                Reaction::Do { steps, say: "  -> ENTER".to_string() }
            },
            Action::Backspace => {
                let steps = self.ctl.backspace();
                Reaction::Do { steps, say: "  -> BACKSPACE".to_string() }
            },
            Action::Ignore => Reaction::Nothing,
        }
    }
}

/// What follows the typing of a character.
pub struct Aftermath {
    /// Whether what waits at the terminal is thrown away unread.
    pub flush: bool,
    /// The line to print of an error.
    pub say: Option<String>,
}

/// The same as contracts speak of it.
pub struct Upshot {
    pub flush: bool,
    pub say: Option<Seq<char>>,
}

impl View for Aftermath {
    type V = Upshot;

    open spec fn view(&self) -> Upshot {
        Upshot {
            flush: self.flush,
            say: match self.say {
                Some(s) => Some(s@),
                None => None,
            },
        }
    }
}

/// What follows the typing of a character: nothing where it landed.  Where its
/// case could not be reached, the error is said, and what is queued is thrown
/// away: it was typed as text, behind the character that failed.
pub open spec fn upshot(failure: Option<Failure>) -> Upshot {
    match failure {
        None => Upshot { flush: false, say: None },
        Some(f) => Upshot { flush: true, say: Some("  !! "@ + failure_text(f)) },
    }
}

/// The bytes that still wait at the terminal after that.
pub open spec fn still_waiting(u: Upshot, queue: Seq<u8>) -> Seq<u8> {
    if u.flush {
        seq![]
    } else {
        queue
    }
}

impl Session {
    /// What follows the typing of a character, as it went.  The session stays
    /// as it is: in text mode.
    pub fn typed(&self, outcome: &Result<(), ReachError>) -> (after: Aftermath)
        ensures
            after@ == upshot(
                match *outcome {
                    Ok(()) => None,
                    Err(e) => Some(e@),
                },
            ),
    {
        match outcome {
            Ok(()) => Aftermath { flush: false, say: None },
            Err(e) => Aftermath { flush: true, say: Some(type_error_line(e)) },
        }
    }
}

/// A character that could not be typed takes the queue behind it along, and
/// leaves the session in text mode: nothing that was typed as text is sent to
/// the phone as a key, and what is typed next is text again.
pub proof fn law_a_failed_character_empties_the_queue(
    d: Desk,
    seq: Seq<char>,
    f: Failure,
    queue: Seq<u8>,
    next: char,
)
    requires
        responded(d, seq).1 is Type,
        ' ' <= next <= '~',
    ensures
        d.mode == Mode::Text,
        responded(d, seq).0.mode == Mode::Text,
        still_waiting(upshot(Some(f)), queue).len() == 0,
        still_waiting(upshot(None), queue) == queue,
        meaning(seq![next], responded(d, seq).0.mode) == Meaning::Type(next),
{
    law_text_mode_types_every_printable(next);
}

/// What is printed where a character's case could not be reached.
pub fn type_error_line(e: &ReachError) -> (line: String)
    ensures
        line@ == "  !! "@ + failure_text(e@),
{
    let mut line = String::new();
    line.append("  !! ");
    let message = e.message();
    line.append(message.as_str());
    proof {
        assert(line@ =~= "  !! "@ + failure_text(e@));
    }
    line
}

/// What is printed of the keystrokes thrown away after that, if there were any.
pub fn dropped_line(dropped: u64) -> (line: Option<String>)
    ensures
        match line {
            Some(l) => dropped > 0 && l@ == "  !! dropped "@ + decimal(dropped as nat)
                + " queued keystroke(s)"@,
            None => dropped == 0,
        },
{
    if dropped == 0 {
        return None;
    }
    let mut line = String::new();
    line.append("  !! dropped ");
    push_decimal(&mut line, dropped);
    line.append(" queued keystroke(s)");
    proof {
        assert(line@ =~= "  !! dropped "@ + decimal(dropped as nat) + " queued keystroke(s)"@);
    }
    Some(line)
}

/// Tab is the only mode switch, and switches both ways.
pub proof fn law_tab_is_the_only_mode_switch(d: Desk, seq: Seq<char>)
    ensures
        (responded(d, seq).0.mode != d.mode) == (seq == "\t"@),
{
    reveal_strlit("\t");
    reveal_strlit("\x03");
    reveal_strlit("\x1b");
    assert("\t"@[0] == '\t');
    assert("\x03"@[0] == '\x03');
    assert("\x1b"@[0] == '\x1b');
}

/// Leaving text mode leaves nothing mid-cycle and no case taken for granted.
pub proof fn law_leaving_text_mode_settles(d: Desk, seq: Seq<char>)
    requires
        d.mode == Mode::Text,
        responded(d, seq).0.mode == Mode::Nav,
    ensures
        responded(d, seq).0.hand.tap == fresh(),
        responded(d, seq).1 matches Response::Do { steps, say } && steps == settling(d.hand.tap),
{
}

/// Only navigating lets a hand try again that has found `#` to go nowhere, and
/// navigating always does.
pub proof fn law_only_navigation_clears_no_field(d: Desk, seq: Seq<char>)
    ensures
        responded(d, seq).0.hand.no_field == (d.hand.no_field && !(meaning(
            seq,
            d.mode,
        ) is Nav)),
        responded(d, seq).0.hand.ring == d.hand.ring,
{
}

/// Quitting does not depend on the mode.
pub proof fn law_quit_from_either_mode(hand: Hand, seq: Seq<char>)
    ensures
        (responded(Desk { mode: Mode::Nav, hand }, seq).1 is Quit) == (responded(
            Desk { mode: Mode::Text, hand },
            seq,
        ).1 is Quit),
        (responded(Desk { mode: Mode::Nav, hand }, seq).1 is Quit) == (seq == "\x1b"@ || seq
            == "\x03"@),
{
}

/// An escape sequence means the same in both modes.
pub proof fn law_escape_sequences_navigate_in_both_modes(seq: Seq<char>)
    requires
        seq.len() > 1,
        seq[0] == '\x1b',
    ensures
        meaning(seq, Mode::Text) == meaning(seq, Mode::Nav),
        meaning(seq, Mode::Nav) is Nav || meaning(seq, Mode::Nav) is Ignore,
{
    reveal_strlit("\x03");
    reveal_strlit("\x1b");
    reveal_strlit("\t");
}

/// Every printable character reaches the typing path in text mode.
pub proof fn law_text_mode_types_every_printable(ch: char)
    requires
        ' ' <= ch <= '~',
    ensures
        meaning(seq![ch], Mode::Text) == Meaning::Type(ch),
{
    reveal_strlit("\x03");
    reveal_strlit("\x1b");
    reveal_strlit("\t");
    reveal_strlit("\r");
    reveal_strlit("\n");
    reveal_strlit("\x7f");
    reveal_strlit("\x08");
    let s = seq![ch];
    assert(s[0] == ch);
    assert("\x03"@[0] == '\x03' && "\x1b"@[0] == '\x1b' && "\t"@[0] == '\t');
    assert("\r"@[0] == '\r' && "\n"@[0] == '\n');
    assert("\x7f"@[0] == '\x7f' && "\x08"@[0] == '\x08');
}

/// The bytes taken one after another.
pub open spec fn gather_all(g: Gathered, bytes: Seq<u8>) -> Gathered
    decreases bytes.len(),
{
    if bytes.len() == 0 {
        g
    } else {
        gather_next(gather_all(g, bytes.drop_last()), Some(bytes.last()))
    }
}

proof fn lemma_gather_open(bytes: Seq<u8>)
    requires
        1 <= bytes.len() < MAX_AFTER_ESC,
        forall|i: int| 1 <= i < bytes.len() ==> !(0x40 <= #[trigger] bytes[i] <= 0x7e),
    ensures
        gather_all(gather_start(ESC), bytes) == (Gathered {
            seq: seq!['\x1b'] + bytes.map_values(|b: u8| b as char),
            left: (MAX_AFTER_ESC - bytes.len()) as nat,
        }),
    decreases bytes.len(),
{
    let chars = bytes.map_values(|b: u8| b as char);
    let short = bytes.drop_last();
    let g = gather_all(gather_start(ESC), short);
    assert(ESC as char == '\x1b');
    if bytes.len() == 1 {
        assert(g == gather_start(ESC));
    } else {
        lemma_gather_open(short);
        assert(!(0x40 <= bytes[bytes.len() - 1] <= 0x7e));
    }
    assert(g.seq.push(bytes.last() as char) =~= seq!['\x1b'] + chars);
}

/// A whole escape sequence is one keystroke: the bytes behind the ESC are all
/// taken, up to the final one and no further, and none is left over to be read
/// as a keystroke of its own.
pub proof fn law_a_sequence_is_gathered_whole(params: Seq<u8>, end: u8)
    requires
        params.len() + 2 <= MAX_AFTER_ESC,
        forall|i: int| 0 <= i < params.len() ==> !(0x40 <= #[trigger] params[i] <= 0x7e),
        0x40 <= end <= 0x7e,
    ensures
        ({
            let open = seq!['[' as u8] + params;
            let whole = open.push(end);
            &&& gather_all(gather_start(ESC), open).left > 0
            &&& gather_all(gather_start(ESC), whole) == (Gathered {
                seq: seq!['\x1b'] + whole.map_values(|b: u8| b as char),
                left: 0,
            })
        }),
{
    let open = seq!['[' as u8] + params;
    let whole = open.push(end);
    assert forall|i: int| 1 <= i < open.len() implies !(0x40 <= #[trigger] open[i] <= 0x7e) by {
        assert(open[i] == params[i - 1]);
    }
    lemma_gather_open(open);
    assert(whole.drop_last() =~= open);
    assert((seq!['\x1b'] + open.map_values(|b: u8| b as char)).push(end as char) =~= seq!['\x1b']
        + whole.map_values(|b: u8| b as char));
}

proof fn lemma_one_character(c: char)
    ensures
        (seq![c] == "\x03"@) == (c == '\x03'),
        (seq![c] == "\x1b"@) == (c == '\x1b'),
        (seq![c] == "\t"@) == (c == '\t'),
        (seq![c] == "\r"@) == (c == '\r'),
        (seq![c] == "\n"@) == (c == '\n'),
        (seq![c] == "\x7f"@) == (c == '\x7f'),
        (seq![c] == "\x08"@) == (c == '\x08'),
{
    reveal_strlit("\x03");
    reveal_strlit("\x1b");
    reveal_strlit("\t");
    reveal_strlit("\r");
    reveal_strlit("\n");
    reveal_strlit("\x7f");
    reveal_strlit("\x08");
    assert(seq![c][0] == c);
    assert(c == '\x03' ==> seq![c] =~= "\x03"@);
    assert(c == '\x1b' ==> seq![c] =~= "\x1b"@);
    assert(c == '\t' ==> seq![c] =~= "\t"@);
    assert(c == '\r' ==> seq![c] =~= "\r"@);
    assert(c == '\n' ==> seq![c] =~= "\n"@);
    assert(c == '\x7f' ==> seq![c] =~= "\x7f"@);
    assert(c == '\x08' ==> seq![c] =~= "\x08"@);
}

/// A digit presses the key of that name in navigation mode, and is typed in
/// text mode.
pub proof fn law_a_digit_presses_its_key(d: char)
    requires
        '0' <= d <= '9',
    ensures
        meaning(seq![d], Mode::Nav) == Meaning::Nav(seq![d]),
        meaning(seq![d], Mode::Text) == Meaning::Type(d),
{
    law_a_digit_is_its_own_key(d);
    lemma_one_character(d);
}

/// What the other single characters mean.  Control-C and escape quit, and tab
/// switches the mode, in either mode; what else navigates is typed in text mode,
/// but for the line ends and the two that erase.
pub proof fn law_what_a_character_means(c: char)
    requires
        !('0' <= c <= '9'),
    ensures
        c == '\x03' || c == '\x1b' ==> forall|mode: Mode|
            #[trigger] meaning(seq![c], mode) == Meaning::Quit,
        c == '\t' ==> forall|mode: Mode| #[trigger] meaning(seq![c], mode) == Meaning::Toggle,
        c != '\x03' && c != '\x1b' && c != '\t' ==> {
            &&& meaning(seq![c], Mode::Text) == (if c == '\r' || c == '\n' {
                Meaning::Enter
            } else if c == '\x7f' || c == '\x08' {
                Meaning::Backspace
            } else if c as u32 <= 127 {
                Meaning::Type(c)
            } else {
                Meaning::Ignore
            })
            &&& meaning(seq![c], Mode::Nav) == (if c == '\r' || c == '\n' {
                Meaning::Nav("OK"@)
            } else if c == '\x7f' || c == '\x08' {
                Meaning::Nav("BACK"@)
            } else if c == '*' {
                Meaning::Nav("STAR"@)
            } else if c == '#' {
                Meaning::Nav("POUND"@)
            } else if c == 'm' {
                Meaning::Nav("MENU"@)
            } else if c == '-' {
                Meaning::Nav("VOLUMEDOWN"@)
            } else if c == '+' {
                Meaning::Nav("VOLUMEUP"@)
            } else {
                Meaning::Ignore
            })
        },
{
    lemma_one_character(c);
    law_single_keystrokes(c);
}

/// An escape sequence means the same in both modes: an arrow goes on navigating
/// while text is typed.
pub proof fn law_arrows_navigate_in_both_modes(rest: Seq<char>)
    requires
        rest.len() > 0,
    ensures
        meaning(seq!['\x1b'] + rest, Mode::Text) == meaning(seq!['\x1b'] + rest, Mode::Nav),
        meaning(seq!['\x1b'] + rest, Mode::Nav) == (match keystroke(seq!['\x1b'] + rest) {
            Some(key) => Meaning::Nav(key),
            None => Meaning::Ignore,
        }),
{
    reveal_strlit("\x03");
    reveal_strlit("\x1b");
    reveal_strlit("\t");
    let s = seq!['\x1b'] + rest;
    assert(s.len() > 1 && s[0] == '\x1b');
}

/// What the keystrokes that are no text do.  A key is pressed as it is named;
/// entering text mode presses nothing, and leaves the hand as it is; the line
/// end presses OK, and ends what is mid-cycle; erasing waits for what is
/// mid-cycle first, and takes no case for granted after it; and what means
/// nothing changes nothing.
pub proof fn law_what_keystrokes_lead_to(d: Desk, seq: Seq<char>)
    ensures
        meaning(seq, d.mode) matches Meaning::Nav(name) ==> responded(d, seq) == (
            (Desk { mode: d.mode, hand: Hand { no_field: false, ..d.hand } }),
            (Response::Do { steps: seq![StepView::Key(name)], say: "  -> "@ + name }),
        ),
        meaning(seq, d.mode) is Toggle && d.mode == Mode::Nav ==> (responded(
            d,
            seq,
        ).1 matches Response::Do { steps, say } && steps.len() == 0) && responded(d, seq).0 == (
        Desk { mode: Mode::Text, hand: d.hand }),
        meaning(seq, d.mode) is Enter ==> (responded(d, seq).1 matches Response::Do { steps, say }
            && steps == seq![StepView::Key("OK"@)]) && responded(d, seq).0.hand.tap.last is None
            && responded(d, seq).0.hand.tap.asked == d.hand.tap.asked && responded(
            d,
            seq,
        ).0.hand.tap.resets_next == d.hand.tap.resets_next,
        meaning(seq, d.mode) is Backspace ==> (responded(
            d,
            seq,
        ).1 matches Response::Do { steps, say } && steps == settling(d.hand.tap).push(
            StepView::Key("DEL"@),
        )) && responded(d, seq).0.hand.tap == fresh(),
        meaning(seq, d.mode) is Quit ==> responded(d, seq) == (d, Response::Quit),
        meaning(seq, d.mode) is Ignore ==> responded(d, seq) == (d, Response::Nothing),
{
}

/// A session in which these characters are struck one after the other, and the
/// steps that they lead to.
pub open spec fn struck(d: Desk, text: Seq<char>) -> (Desk, Seq<StepView>)
    decreases text.len(),
{
    if text.len() == 0 {
        (d, seq![])
    } else {
        let (before, steps) = struck(d, text.drop_last());
        let (after, response) = responded(before, seq![text.last()]);
        (
            after,
            match response {
                Response::Type { ch, steps: these } => steps + these,
                Response::Do { steps: these, say } => steps + these,
                _ => steps,
            },
        )
    }
}

proof fn lemma_struck(d: Desk, text: Seq<char>)
    requires
        d.mode == Mode::Text,
        all_typeable(text),
        forall|i: int| 0 <= i < text.len() ==> ' ' <= #[trigger] text[i] <= '~',
    ensures
        struck(d, text) == (
            (Desk {
                mode: Mode::Text,
                hand: Hand { tap: planned_text(d.hand.tap, text).0, ..d.hand },
            }),
            planned_text(d.hand.tap, text).1,
        ),
    decreases text.len(),
{
    if text.len() > 0 {
        let short = text.drop_last();
        assert forall|i: int| 0 <= i < short.len() implies ' ' <= #[trigger] short[i] <= '~'
            && typeable(short[i]) by {
            assert(short[i] == text[i]);
        }
        lemma_struck(d, short);
        assert(' ' <= text[text.len() - 1] <= '~');
        assert(typeable(text[text.len() - 1]));
        law_text_mode_types_every_printable(text.last());
        assert(planned(planned_text(d.hand.tap, short).0, text.last()) is Some);
    }
}

/// What is struck in text mode lands on the phone: any text of printable
/// characters that the keypad can type, and then the tab that leaves text mode,
/// lead to steps that leave exactly that text in the field.
pub proof fn law_what_is_struck_lands(hand: Hand, device: Device, text: Seq<char>, upper: bool)
    requires
        hand.tap == fresh(),
        device.suits(),
        all_typeable(text),
        forall|i: int| 0 <= i < text.len() ==> ' ' <= #[trigger] text[i] <= '~',
    ensures
        ({
            let start = Desk { mode: Mode::Text, hand };
            let (end, steps) = struck(start, text.push('\t'));
            let pad = run(device, idle(upper), steps);
            &&& end.mode == Mode::Nav
            &&& !pad.dropped
            &&& finish(pad) == text
        }),
{
    let start = Desk { mode: Mode::Text, hand };
    let whole = text.push('\t');
    assert(whole.drop_last() =~= text);
    lemma_struck(start, text);
    lemma_one_character('\t');
    law_typing_round_trip(device, text, upper);
    assert(landed(text) =~= text) by {
        assert forall|i: int| 0 <= i < text.len() implies #[trigger] landed(text)[i] == text[i] by {
            assert(' ' <= text[i]);
        }
    }
}

/// A byte that is no escape is a keystroke of its own.  Behind an escape up to
/// eight bytes are taken; where none comes in time, what is there is the
/// keystroke.
pub proof fn law_how_much_is_one_keystroke(first: u8, g: Gathered, b: u8)
    ensures
        first != 27 ==> gather_start(first) == (Gathered { seq: seq![first as char], left: 0 }),
        gather_start(27) == (Gathered { seq: seq!['\x1b'], left: 8 }),
        gather_next(g, None) == (Gathered { seq: g.seq, left: 0 }),
        gather_next(g, Some(b)).seq == g.seq.push(b as char),
        g.seq.len() >= 2 && 64 <= b <= 126 ==> gather_next(g, Some(b)).left == 0,
        g.left > 0 && (g.seq.len() < 2 || b < 64 || b > 126) ==> gather_next(g, Some(b)).left
            == g.left - 1,
{
    assert(27u8 as char == '\x1b');
}

/// A character that landed is followed by nothing; one that did not is followed
/// by what went wrong.
pub proof fn law_what_is_said_of_a_character(f: Failure)
    ensures
        upshot(None) == (Upshot { flush: false, say: None }),
        upshot(Some(f)).flush,
        upshot(Some(f)).say == Some("  !! "@ + failure_text(f)),
{
}

} // verus!
