//! Typing on the keypad itself, by multi-tap.
//!
//! The phone takes text the way its own user enters it: `2` is abc, `7` is
//! pqrs, and a character is a number of taps in.  What this module decides is
//! everything that can be decided without looking at the screen: which key a
//! character sits on, how many taps in, and the waits that keep two characters
//! on one key from merging.  The case of the input method cannot be computed,
//! only observed, so a plan *asks* for a case with `Step::Mode` and leaves the
//! reaching of it to whoever can see the mode indicator.
//!
//! `keypad` holds a model of the phone's end, and the proof that what is
//! planned here is what lands in the field.
use vstd::prelude::*;
use crate::imemode::Case;
use crate::keys::{law_keystrokes_name_real_keys, lemma_digit_is_a_key, named};
use crate::text::{
    first_at, is_ascii_letter, is_digit, is_letter, is_upper, lemma_first_at, lower, position,
    same_text, to_lower,
};

verus! {

/// Milliseconds between taps of one key.  The input method drops taps closer
/// together than about 120 ms, and commits the character long after this.
pub const TAP_MS: u64 = 150;

/// Milliseconds after which the character being tapped is committed.  The
/// slowest phone measured still merges at 1400 ms and commits at 1700 ms.
pub const ADVANCE_MS: u64 = 1900;

/// The `1` key's punctuation, in tap order.  What is not here lives behind the
/// symbol picker and cannot be typed.
pub const PUNCT: &'static str = ".,?!1;:/@-+_=";

/// Each key with its tap cycle, the digit last.
pub const KEYPAD: [(&'static str, &'static str); 9] = [
    ("2", "abc2"),
    ("3", "def3"),
    ("4", "ghi4"),
    ("5", "jkl5"),
    ("6", "mno6"),
    ("7", "pqrs7"),
    ("8", "tuv8"),
    ("9", "wxyz9"),
    ("0", " 0"),
];

/// One thing to do.
///
/// `Mode` is a request, not a keypress: how many presses of `#` it takes is
/// only known from the screen.
#[derive(PartialEq, Clone, Copy, Debug)]
pub enum Step {
    /// Press and release the named key.
    Key(&'static str),
    /// Let this many milliseconds pass.
    Wait(u64),
    /// Reach this case before going on.
    Mode(Case),
}

/// A step as contracts speak of it, with the key as its name's characters.
pub enum StepView {
    Key(Seq<char>),
    Wait(u64),
    Mode(Case),
}

impl View for Step {
    type V = StepView;

    open spec fn view(&self) -> StepView {
        match *self {
            Step::Key(k) => StepView::Key(k@),
            Step::Wait(ms) => StepView::Wait(ms),
            Step::Mode(c) => StepView::Mode(c),
        }
    }
}

pub open spec fn steps_view(steps: Seq<Step>) -> Seq<StepView> {
    Seq::new(steps.len(), |i: int| steps[i]@)
}

/// What the host can keep track of: where the last tap landed, and which case
/// was last asked for.
pub struct MultiTap {
    /// The key the last tap landed on; a character on the same key has to wait
    /// for the timeout first.
    last: Option<&'static str>,
    /// The case last asked for, so that a run of one case asks once.
    asked: Option<Case>,
    /// The input method returns to sentence mode by itself after a sentence
    /// ends, so the next letter has to ask again.
    resets_next: bool,
}

/// The planner's state as contracts speak of it.
pub struct Taps {
    pub last: Option<Seq<char>>,
    pub asked: Option<Case>,
    pub resets_next: bool,
}

impl View for MultiTap {
    type V = Taps;

    closed spec fn view(&self) -> Taps {
        Taps {
            last: match self.last {
                Some(k) => Some(k@),
                None => None,
            },
            asked: self.asked,
            resets_next: self.resets_next,
        }
    }
}

/// A planner that has planned nothing yet.
pub open spec fn fresh() -> Taps {
    Taps { last: None, asked: None, resets_next: false }
}

pub open spec fn home_from(ch: char, row: int) -> Option<(Seq<char>, int)>
    decreases KEYPAD@.len() - row,
{
    if row >= KEYPAD@.len() {
        match first_at(PUNCT@, ch, 0) {
            Some(i) => Some(("1"@, i + 1)),
            None => None,
        }
    } else {
        match first_at(KEYPAD@[row].1@, lower(ch), 0) {
            Some(i) => Some((KEYPAD@[row].0@, i + 1)),
            None => home_from(ch, row + 1),
        }
    }
}

/// The key a character sits on, and how many taps in: a letter in either case
/// by its small letter, and what no row of the keypad holds on the `1` key.
pub open spec fn home(ch: char) -> Option<(Seq<char>, int)> {
    home_from(ch, 0)
}

pub open spec fn cycle_from(key: Seq<char>, row: int) -> Option<Seq<char>>
    decreases KEYPAD@.len() - row,
{
    if row >= KEYPAD@.len() {
        None
    } else if KEYPAD@[row].0@ == key {
        Some(KEYPAD@[row].1@)
    } else {
        cycle_from(key, row + 1)
    }
}

/// The characters that taps of `key` run through, if it is a key that types.
pub open spec fn cycle(key: Seq<char>) -> Option<Seq<char>> {
    if key == "1"@ {
        Some(PUNCT@)
    } else {
        cycle_from(key, 0)
    }
}

/// What the tables hold, spelled out.
pub proof fn lemma_tables()
    ensures
        PUNCT@ == seq!['.', ',', '?', '!', '1', ';', ':', '/', '@', '-', '+', '_', '='],
        "1"@ == seq!['1'],
        KEYPAD@[0].0@ == seq!['2'] && KEYPAD@[0].1@ == seq!['a', 'b', 'c', '2'],
        KEYPAD@[1].0@ == seq!['3'] && KEYPAD@[1].1@ == seq!['d', 'e', 'f', '3'],
        KEYPAD@[2].0@ == seq!['4'] && KEYPAD@[2].1@ == seq!['g', 'h', 'i', '4'],
        KEYPAD@[3].0@ == seq!['5'] && KEYPAD@[3].1@ == seq!['j', 'k', 'l', '5'],
        KEYPAD@[4].0@ == seq!['6'] && KEYPAD@[4].1@ == seq!['m', 'n', 'o', '6'],
        KEYPAD@[5].0@ == seq!['7'] && KEYPAD@[5].1@ == seq!['p', 'q', 'r', 's', '7'],
        KEYPAD@[6].0@ == seq!['8'] && KEYPAD@[6].1@ == seq!['t', 'u', 'v', '8'],
        KEYPAD@[7].0@ == seq!['9'] && KEYPAD@[7].1@ == seq!['w', 'x', 'y', 'z', '9'],
        KEYPAD@[8].0@ == seq!['0'] && KEYPAD@[8].1@ == seq![' ', '0'],
{
    reveal_strlit(".,?!1;:/@-+_=");
    reveal_strlit("1");
    reveal_strlit("2");
    reveal_strlit("abc2");
    reveal_strlit("3");
    reveal_strlit("def3");
    reveal_strlit("4");
    reveal_strlit("ghi4");
    reveal_strlit("5");
    reveal_strlit("jkl5");
    reveal_strlit("6");
    reveal_strlit("mno6");
    reveal_strlit("7");
    reveal_strlit("pqrs7");
    reveal_strlit("8");
    reveal_strlit("tuv8");
    reveal_strlit("9");
    reveal_strlit("wxyz9");
    reveal_strlit("0");
    reveal_strlit(" 0");
    assert(PUNCT@ =~= seq!['.', ',', '?', '!', '1', ';', ':', '/', '@', '-', '+', '_', '=']);
    assert("1"@ =~= seq!['1']);
    assert(KEYPAD@[0].0@ =~= seq!['2'] && KEYPAD@[0].1@ =~= seq!['a', 'b', 'c', '2']);
    assert(KEYPAD@[1].0@ =~= seq!['3'] && KEYPAD@[1].1@ =~= seq!['d', 'e', 'f', '3']);
    assert(KEYPAD@[2].0@ =~= seq!['4'] && KEYPAD@[2].1@ =~= seq!['g', 'h', 'i', '4']);
    assert(KEYPAD@[3].0@ =~= seq!['5'] && KEYPAD@[3].1@ =~= seq!['j', 'k', 'l', '5']);
    assert(KEYPAD@[4].0@ =~= seq!['6'] && KEYPAD@[4].1@ =~= seq!['m', 'n', 'o', '6']);
    assert(KEYPAD@[5].0@ =~= seq!['7'] && KEYPAD@[5].1@ =~= seq!['p', 'q', 'r', 's', '7']);
    assert(KEYPAD@[6].0@ =~= seq!['8'] && KEYPAD@[6].1@ =~= seq!['t', 'u', 'v', '8']);
    assert(KEYPAD@[7].0@ =~= seq!['9'] && KEYPAD@[7].1@ =~= seq!['w', 'x', 'y', 'z', '9']);
    assert(KEYPAD@[8].0@ =~= seq!['0'] && KEYPAD@[8].1@ =~= seq![' ', '0']);
}

proof fn lemma_cycle_of_row(row: int)
    requires
        0 <= row < KEYPAD@.len(),
    ensures
        cycle(KEYPAD@[row].0@) == Some(KEYPAD@[row].1@),
        KEYPAD@[row].0@ != "1"@,
        KEYPAD@[row].0@.len() == 1,
        '0' <= KEYPAD@[row].0@[0] <= '9',
{
    lemma_tables();
    assert(KEYPAD@[row].0@[0] != '1');
    assert("1"@[0] == '1');
    lemma_cycle_from_before(row, 0);
}

proof fn lemma_cycle_from_before(row: int, from: int)
    requires
        0 <= from <= row < KEYPAD@.len(),
    ensures
        cycle_from(KEYPAD@[row].0@, from) == Some(KEYPAD@[row].1@),
    decreases row - from,
{
    if from < row {
        lemma_tables();
        assert(KEYPAD@[row].0@[0] != KEYPAD@[from].0@[0]);
        lemma_cycle_from_before(row, from + 1);
    }
}

/// A character's home is a key that types, and its place in that key's cycle
/// is the number of taps.
pub proof fn lemma_home(ch: char)
    ensures
        match home(ch) {
            Some((key, taps)) => {
                &&& cycle(key) matches Some(cyc)
                &&& 1 <= taps <= cyc.len() <= 13
                &&& cyc[taps - 1] == lower(ch)
                &&& key.len() == 1
                &&& '0' <= key[0] <= '9'
            },
            None => true,
        },
{
    lemma_home_from(ch, 0);
}

pub open spec fn typeable(ch: char) -> bool {
    ch == '\n' || ch == '\r' || home(ch) is Some
}

/// The keypad reaches the letters of both cases, the digits, the space, the
/// punctuation of the `1` key and the line break, and nothing else.
pub proof fn law_what_is_typeable(ch: char)
    ensures
        typeable(ch) <==> {
            ||| is_letter(ch)
            ||| is_digit(ch)
            ||| ch == ' '
            ||| ch == '\n'
            ||| ch == '\r'
            ||| PUNCT@.contains(ch)
        },
{
    lemma_home_from(ch, 0);
    lemma_tables();
    let l = lower(ch);
    assert(seq!['1'][0] == '1');
    assert(PUNCT@[4] == '1');
    assert forall|r: int| 0 <= r < KEYPAD@.len() && KEYPAD@[r].1@.contains(l) implies is_letter(ch)
        || is_digit(ch) || ch == ' ' by {
        let i = KEYPAD@[r].1@.index_of(l);
        assert(KEYPAD@[r].1@[i] == l);
    }
    if is_letter(ch) || is_digit(ch) || ch == ' ' {
        if l == 'a' || l == 'b' || l == 'c' || l == '2' {
            assert(KEYPAD@[0].1@[0] == l || KEYPAD@[0].1@[1] == l || KEYPAD@[0].1@[2] == l
                || KEYPAD@[0].1@[3] == l);
        } else if l == 'd' || l == 'e' || l == 'f' || l == '3' {
            assert(KEYPAD@[1].1@[0] == l || KEYPAD@[1].1@[1] == l || KEYPAD@[1].1@[2] == l
                || KEYPAD@[1].1@[3] == l);
        } else if l == 'g' || l == 'h' || l == 'i' || l == '4' {
            assert(KEYPAD@[2].1@[0] == l || KEYPAD@[2].1@[1] == l || KEYPAD@[2].1@[2] == l
                || KEYPAD@[2].1@[3] == l);
        } else if l == 'j' || l == 'k' || l == 'l' || l == '5' {
            assert(KEYPAD@[3].1@[0] == l || KEYPAD@[3].1@[1] == l || KEYPAD@[3].1@[2] == l
                || KEYPAD@[3].1@[3] == l);
        } else if l == 'm' || l == 'n' || l == 'o' || l == '6' {
            assert(KEYPAD@[4].1@[0] == l || KEYPAD@[4].1@[1] == l || KEYPAD@[4].1@[2] == l
                || KEYPAD@[4].1@[3] == l);
        } else if l == 'p' || l == 'q' || l == 'r' || l == 's' || l == '7' {
            assert(KEYPAD@[5].1@[0] == l || KEYPAD@[5].1@[1] == l || KEYPAD@[5].1@[2] == l
                || KEYPAD@[5].1@[3] == l || KEYPAD@[5].1@[4] == l);
        } else if l == 't' || l == 'u' || l == 'v' || l == '8' {
            assert(KEYPAD@[6].1@[0] == l || KEYPAD@[6].1@[1] == l || KEYPAD@[6].1@[2] == l
                || KEYPAD@[6].1@[3] == l);
        } else if l == 'w' || l == 'x' || l == 'y' || l == 'z' || l == '9' {
            assert(KEYPAD@[7].1@[0] == l || KEYPAD@[7].1@[1] == l || KEYPAD@[7].1@[2] == l
                || KEYPAD@[7].1@[3] == l || KEYPAD@[7].1@[4] == l);
        } else if l == ' ' || l == '0' {
            assert(KEYPAD@[8].1@[0] == l || KEYPAD@[8].1@[1] == l);
        } else {
            assert(l == '1');
        }
    }
}

proof fn lemma_home_from(ch: char, row: int)
    requires
        0 <= row <= KEYPAD@.len(),
    ensures
        match home_from(ch, row) {
            Some((key, taps)) => {
                &&& cycle(key) matches Some(cyc)
                &&& 1 <= taps <= cyc.len() <= 13
                &&& cyc[taps - 1] == lower(ch)
                &&& key.len() == 1
                &&& '0' <= key[0] <= '9'
            },
            None => true,
        },
        home_from(ch, row) is Some <==> PUNCT@.contains(ch) || exists|r: int|
            row <= r < KEYPAD@.len() && (#[trigger] KEYPAD@[r]).1@.contains(lower(ch)),
    decreases KEYPAD@.len() - row,
{
    lemma_tables();
    if row < KEYPAD@.len() {
        lemma_first_at(KEYPAD@[row].1@, lower(ch), 0);
        lemma_cycle_of_row(row);
        lemma_home_from(ch, row + 1);
    } else {
        lemma_first_at(PUNCT@, ch, 0);
    }
}

/// Where a character lives on the keypad: which key, and how many taps.
pub fn find(ch: char) -> (at: Option<(&'static str, usize)>)
    ensures
        match at {
            Some((key, taps)) => home(ch) == Some((key@, taps as int)),
            None => home(ch) is None,
        },
{
    let small = to_lower(ch);
    let mut row: usize = 0;
    while row < KEYPAD.len()
        invariant
            row <= KEYPAD@.len(),
            small == lower(ch),
            home(ch) == home_from(ch, row as int),
        decreases KEYPAD@.len() - row,
    {
        let (key, cyc) = KEYPAD[row];
        if let Some(i) = position(cyc, small) {
            proof {
                lemma_home(ch);
            }
            return Some((key, i + 1));
        }
        row = row + 1;
    }
    match position(PUNCT, ch) {
        Some(i) => {
            proof {
                lemma_home(ch);
            }
            Some(("1", i + 1))
        },
        None => None,
    }
}

pub open spec fn case_of(ch: char) -> Case {
    if is_upper(ch) {
        Case::Upper
    } else {
        Case::Lower
    }
}

/// The characters after which the input method goes back to sentence mode.
pub open spec fn ends_sentence(ch: char) -> bool {
    ch == '.' || ch == '!' || ch == '?'
}

/// Whether the next character has to ask for a case: only letters do, and only
/// where the case is another one than was last asked for, or is no longer sure.
pub open spec fn asks(t: Taps, ch: char) -> bool {
    is_letter(ch) && (t.asked != Some(case_of(ch)) || t.resets_next)
}

/// What comes before the taps: the request for a case, if there is one, and the
/// wait for a character that is still being tapped.
pub open spec fn lead_in(t: Taps, ch: char, key: Seq<char>) -> Seq<StepView> {
    let wait = seq![StepView::Wait(ADVANCE_MS)];
    if asks(t, ch) {
        (if t.last is Some {
            wait
        } else {
            seq![]
        }) + seq![StepView::Mode(case_of(ch))]
    } else if t.last == Some(key) {
        wait
    } else {
        seq![]
    }
}

/// `taps` presses of `key` with the tap gap between each two.
pub open spec fn taps_of(key: Seq<char>, taps: int) -> Seq<StepView>
    decreases taps,
{
    if taps <= 0 {
        seq![]
    } else if taps == 1 {
        seq![StepView::Key(key)]
    } else {
        taps_of(key, taps - 1) + seq![StepView::Wait(TAP_MS), StepView::Key(key)]
    }
}

/// The steps that type `ch`, and the planner's state after them; nothing for a
/// character that the keypad does not reach.
pub open spec fn planned(t: Taps, ch: char) -> Option<(Taps, Seq<StepView>)> {
    if ch == '\n' || ch == '\r' {
        Some((Taps { last: None, ..t }, seq![StepView::Key("OK"@)]))
    } else {
        match home(ch) {
            None => None,
            Some((key, taps)) => Some(
                (
                    Taps {
                        last: Some(key),
                        asked: if is_letter(ch) {
                            Some(case_of(ch))
                        } else {
                            t.asked
                        },
                        resets_next: if is_letter(ch) {
                            false
                        } else {
                            t.resets_next || ends_sentence(ch)
                        },
                    },
                    lead_in(t, ch, key) + taps_of(key, taps),
                ),
            ),
        }
    }
}

/// The wait after which nothing is left mid-cycle.
pub open spec fn settling(t: Taps) -> Seq<StepView> {
    if t.last is Some {
        seq![StepView::Wait(ADVANCE_MS)]
    } else {
        seq![]
    }
}

fn push_step(steps: &mut Vec<Step>, step: Step)
    ensures
        steps_view(final(steps)@) == steps_view(old(steps)@).push(step@),
{
    steps.push(step);
    proof {
        assert(steps_view(steps@) =~= steps_view(old(steps)@).push(step@));
    }
}

fn one_step(step: Step) -> (steps: Vec<Step>)
    ensures
        steps_view(steps@) == seq![step@],
{
    let mut steps: Vec<Step> = Vec::new();
    steps.push(step);
    proof {
        assert(steps_view(steps@) =~= seq![step@]);
    }
    steps
}

impl Default for MultiTap {
    fn default() -> (t: Self)
        ensures
            t@ == fresh(),
    {
        MultiTap { last: None, asked: None, resets_next: false }
    }
}

impl MultiTap {
    pub fn new() -> (t: Self)
        ensures
            t@ == fresh(),
    {
        MultiTap::default()
    }

    /// The steps that type `ch`, or None if the keypad cannot reach it.
    ///
    /// The plan for a character depends on every character before it.
    pub fn plan(&mut self, ch: char) -> (steps: Option<Vec<Step>>)
        ensures
            match steps {
                Some(v) => planned(old(self)@, ch) == Some((final(self)@, steps_view(v@))),
                None => planned(old(self)@, ch) is None && final(self)@ == old(self)@,
            },
    {
        if ch == '\n' || ch == '\r' {
            self.last = None;
            return Some(one_step(Step::Key("OK")));
        }
        let (key, taps) = match find(ch) {
            Some(at) => at,
            None => return None,
        };
        let mut steps: Vec<Step> = Vec::new();
        proof {
            lemma_home(ch);
            assert(steps_view(steps@) =~= seq![]);
        }
        if is_ascii_letter(ch) {
            let want = if 'A' <= ch && ch <= 'Z' {
                Case::Upper
            } else {
                Case::Lower
            };
            if self.asked != Some(want) || self.resets_next {
                // The switch obeys the same timeout as any tap: what is still
                // mid-cycle has to be committed before it.
                if self.last.is_some() {
                    push_step(&mut steps, Step::Wait(ADVANCE_MS));
                }
                push_step(&mut steps, Step::Mode(want));
                self.asked = Some(want);
                self.last = None;
            }
            self.resets_next = false;
        } else if ch == '.' || ch == '!' || ch == '?' {
            self.resets_next = true;
        }
        // On the key of the character before, these taps would extend that
        // character instead of starting this one.
        let again = match self.last {
            Some(k) => same_text(k, key),
            None => false,
        };
        if again {
            push_step(&mut steps, Step::Wait(ADVANCE_MS));
        }
        proof {
            assert(steps_view(steps@) =~= lead_in(old(self)@, ch, key@));
        }
        let mut i: usize = 0;
        while i < taps
            invariant
                i <= taps <= 13,
                steps_view(steps@) == lead_in(old(self)@, ch, key@) + taps_of(key@, i as int),
            decreases taps - i,
        {
            if i > 0 {
                push_step(&mut steps, Step::Wait(TAP_MS));
            }
            push_step(&mut steps, Step::Key(key));
            i = i + 1;
            proof {
                assert(steps_view(steps@) =~= lead_in(old(self)@, ch, key@) + taps_of(
                    key@,
                    i as int,
                ));
            }
        }
        self.last = Some(key);
        Some(steps)
    }

    /// Wait out the last character, so that nothing is left mid-cycle for the
    /// next keypress from anywhere to edit.
    ///
    /// What happens next is out of this planner's sight and can move the input
    /// method, so the case counts as unknown again.
    pub fn settle(&mut self) -> (steps: Vec<Step>)
        ensures
            steps_view(steps@) == settling(old(self)@),
            final(self)@ == fresh(),
    {
        let mut steps: Vec<Step> = Vec::new();
        proof {
            assert(steps_view(steps@) =~= seq![]);
        }
        if self.last.is_some() {
            push_step(&mut steps, Step::Wait(ADVANCE_MS));
            proof {
                assert(steps_view(steps@) =~= seq![StepView::Wait(ADVANCE_MS)]);
            }
        }
        self.last = None;
        self.asked = None;
        self.resets_next = false;
        steps
    }
}

/// What is still being tapped is waited for wherever the next character would
/// disturb it: before a switch of the mode, and before taps of the same key.
pub proof fn law_what_is_mid_cycle_is_waited_for(t: Taps, ch: char)
    requires
        home(ch) is Some,
        t.last is Some,
        asks(t, ch) || (home(ch) matches Some((key, taps)) && t.last == Some(key)),
        ch != '\n' && ch != '\r',
    ensures
        planned(t, ch) matches Some((t2, steps)) && steps.len() > 0 && steps[0] == StepView::Wait(
            ADVANCE_MS,
        ),
{
}

proof fn lemma_digit_has_one_key(key: Seq<char>, cyc: Seq<char>, i: int)
    requires
        cycle(key) == Some(cyc),
        0 <= i < cyc.len(),
        is_digit(cyc[i]),
    ensures
        key == seq![cyc[i]],
        cyc[i] != '1' ==> i == cyc.len() - 1,
{
    lemma_tables();
    if key != "1"@ {
        lemma_cycle_from_is_a_row(key, 0);
        let row = choose|row: int|
            0 <= row < KEYPAD@.len() && (#[trigger] KEYPAD@[row]).0@ == key && KEYPAD@[row].1@
                == cyc;
        assert(KEYPAD@[row].0@ =~= seq![cyc[i]]);
    } else {
        assert("1"@ =~= seq![cyc[i]]);
    }
}

proof fn lemma_cycle_from_is_a_row(key: Seq<char>, from: int)
    requires
        0 <= from,
        cycle_from(key, from) is Some,
    ensures
        exists|row: int|
            0 <= row < KEYPAD@.len() && (#[trigger] KEYPAD@[row]).0@ == key && KEYPAD@[row].1@
                == cycle_from(key, from)->0,
    decreases KEYPAD@.len() - from,
{
    if from < KEYPAD@.len() && KEYPAD@[from].0@ != key {
        lemma_cycle_from_is_a_row(key, from + 1);
    }
}

/// A digit sits on the key that bears it, and, but for the `1` among the
/// punctuation, at the end of that key's cycle.
pub proof fn law_a_digit_sits_on_its_own_key(d: char)
    requires
        is_digit(d),
    ensures
        home(d) matches Some((key, taps)) && key == seq![d] && cycle(key) is Some && (d != '1'
            ==> taps == cycle(key)->0.len()),
{
    law_what_is_typeable(d);
    lemma_home(d);
    let (key, taps) = home(d)->0;
    lemma_digit_has_one_key(key, cycle(key)->0, taps - 1);
}

proof fn lemma_taps_press_one_key(key: Seq<char>, taps: int, i: int)
    requires
        0 <= i < taps_of(key, taps).len(),
    ensures
        taps_of(key, taps)[i] matches StepView::Key(k) ==> k == key,
    decreases taps,
{
    if taps > 1 && i < taps_of(key, taps - 1).len() {
        lemma_taps_press_one_key(key, taps - 1, i);
    }
}

/// Every key that a plan presses is a key of the table, and none is the `#`
/// that switches the mode: that is left to whoever reads the screen.
pub proof fn law_plans_press_real_keys(t: Taps, ch: char, i: int)
    requires
        planned(t, ch) matches Some((t2, steps)) && 0 <= i < steps.len(),
    ensures
        planned(t, ch) matches Some((t2, steps)) && (steps[i] matches StepView::Key(k) ==> named(
            k,
        ) is Some && k != "POUND"@),
{
    reveal_strlit("OK");
    reveal_strlit("POUND");
    law_keystrokes_name_real_keys("OK"@);
    if ch != '\n' && ch != '\r' {
        let (key, taps) = home(ch)->0;
        lemma_home(ch);
        lemma_digit_is_a_key(key);
        let lead = lead_in(t, ch, key);
        if i >= lead.len() {
            lemma_taps_press_one_key(key, taps, i - lead.len());
        }
    }
}

/// The letters run along the keys in the order of the alphabet, from `2` to
/// `9`: three to a key, and four on `7` and `9`; a capital sits where its small
/// letter does.
pub proof fn law_the_alphabet_runs_along_the_keys(ch: char)
    requires
        is_letter(ch),
    ensures
        ({
            let i = lower(ch) as int - 97;
            home(ch) == Some(
                if i < 15 {
                    (seq![(50 + i / 3) as u8 as char], i % 3 + 1)
                } else if i < 19 {
                    (seq!['7'], i - 14)
                } else if i < 22 {
                    (seq!['8'], i - 18)
                } else {
                    (seq!['9'], i - 21)
                },
            )
        }),
{
    lemma_tables();
    let l = lower(ch);
    let i = l as int - 97;
    reveal_with_fuel(home_from, 10);
    reveal_with_fuel(first_at, 6);
    assert(0 <= i < 26);
    let key = if i < 15 {
        seq![(50 + i / 3) as u8 as char]
    } else if i < 19 {
        seq!['7']
    } else if i < 22 {
        seq!['8']
    } else {
        seq!['9']
    };
    let row = if i < 15 {
        i / 3
    } else if i < 19 {
        5int
    } else if i < 22 {
        6int
    } else {
        7int
    };
    assert(KEYPAD@[row].0@ =~= key);
    lemma_home(ch);
}

/// Punctuation in the order in which taps of the `1` key bring it up, with the
/// digit in its place, and the space before the zero.
pub proof fn law_the_taps_of_punctuation()
    ensures
        home('.') == Some((seq!['1'], 1int)),
        home(',') == Some((seq!['1'], 2int)),
        home('?') == Some((seq!['1'], 3int)),
        home('!') == Some((seq!['1'], 4int)),
        home('1') == Some((seq!['1'], 5int)),
        home(';') == Some((seq!['1'], 6int)),
        home(':') == Some((seq!['1'], 7int)),
        home('/') == Some((seq!['1'], 8int)),
        home('@') == Some((seq!['1'], 9int)),
        home('-') == Some((seq!['1'], 10int)),
        home('+') == Some((seq!['1'], 11int)),
        home('_') == Some((seq!['1'], 12int)),
        home('=') == Some((seq!['1'], 13int)),
        home(' ') == Some((seq!['0'], 1int)),
        home('0') == Some((seq!['0'], 2int)),
{
    lemma_tables();
    reveal_with_fuel(home_from, 10);
    reveal_with_fuel(first_at, 14);
}

/// Nothing is waited for that need not be: a character on another key than the
/// one before it, which asks for no case, is its taps and nothing else.
pub proof fn law_nothing_is_waited_for_in_vain(t: Taps, ch: char)
    requires
        home(ch) is Some,
        ch != '\n' && ch != '\r',
        !(home(ch) matches Some((key, taps)) && t.last == Some(key)),
        !is_letter(ch) || (t.asked == Some(
            if 'A' <= ch <= 'Z' {
                Case::Upper
            } else {
                Case::Lower
            },
        ) && !t.resets_next),
    ensures
        home(ch) matches Some((key, taps)) && planned(t, ch) matches Some((t2, steps)) && steps
            == taps_of(key, taps),
{
    let (key, taps) = home(ch)->0;
    assert(seq![] + taps_of(key, taps) =~= taps_of(key, taps));
}

/// The taps of a character: the key so many times, and the tap gap between each
/// two of them and nowhere else.
pub proof fn law_taps_alternate(key: Seq<char>, taps: int, i: int)
    requires
        1 <= taps,
        0 <= i < 2 * taps - 1,
    ensures
        taps_of(key, taps).len() == 2 * taps - 1,
        taps_of(key, taps)[i] == (if i % 2 == 0 {
            StepView::Key(key)
        } else {
            StepView::Wait(150)
        }),
    decreases taps,
{
    if taps > 1 {
        law_taps_alternate(key, taps - 1, if i < 2 * taps - 3 {
            i
        } else {
            0
        });
    }
}

/// Settling waits once, for as long as a character takes to be committed, where
/// one is mid-cycle, and not at all where none is.
pub proof fn law_settling_waits_only_mid_cycle(t: Taps)
    ensures
        t.last is None ==> settling(t).len() == 0,
        t.last is Some ==> settling(t) == seq![StepView::Wait(1900)],
{
}

} // verus!
