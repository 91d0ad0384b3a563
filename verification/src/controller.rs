//! The typing hand: what a session keeps while it drives the keypad, and how
//! it gets the phone into the case a letter needs.
//!
//! Nothing here touches the phone.  A plan is a list of steps for the caller
//! to carry out, and reaching a case is a conversation: the caller looks at
//! the mode indicator, hands over what it saw, and is told whether to press
//! `#` and whether to look again.
use vstd::prelude::*;
use vstd::utf8::is_ascii_chars;
use crate::crop::{looks_lowercase, Crop, Mask};
use crate::imemode::{
    all_differ, all_valid, concluded, law_a_ring_with_lowercase_is_calibrated,
    law_a_walk_stays_valid, law_the_two_cases, law_the_walk_stops_where_it_returns, reading,
    ring_text, straight, walked, CalibrateError, Case, Indicator, Next, NextView, Outcome, Ring,
    RingWalk, Walk, MAX_LOOKS, NO_FIELD,
};
use crate::keypad::{
    all_typeable, finish, idle, landed, law_typing_round_trip, planned_text, run, Device,
};
use crate::keys::{ascii_upper, lookup, named, uppercased};
use crate::multitap::{
    fresh, planned, settling, steps_view, typeable, MultiTap, Step, StepView, Taps,
};
use crate::text::{decimal, join, joined, push_decimal, strings};
use crate::words::{holds, lemma_holds_itself, lemma_holds_within, lemma_joined_holds};

verus! {

/// How long the mode banner sits over the status bar after a `#`, in
/// milliseconds.  A frame grabbed under it shows no indicator.
pub const BANNER_MS: u64 = 1900;

/// What a session keeps while it types.
pub struct Controller {
    /// Calibrated on first use: it costs a walk around the phone's mode ring.
    indicator: Option<Indicator>,
    /// Where the keypad's tap cycle stands.
    tap: MultiTap,
    /// Set once `#` has been shown to go nowhere, so that the next characters
    /// do not press it again into whatever does have the focus.
    no_field: bool,
}

/// The same as contracts speak of it.
pub struct Hand {
    pub ring: Option<Ring>,
    pub tap: Taps,
    pub no_field: bool,
}

impl Hand {
    pub open spec fn valid(self) -> bool {
        self.ring matches Some(r) ==> all_valid(r.modes)
    }
}

impl View for Controller {
    type V = Hand;

    closed spec fn view(&self) -> Hand {
        Hand {
            ring: match self.indicator {
                Some(i) => Some(i@),
                None => None,
            },
            tap: self.tap@,
            no_field: self.no_field,
        }
    }
}

/// A case on its way to being reached.
pub struct Reach {
    want: Case,
    phase: Phase,
}

enum Phase {
    /// Look before touching anything: very often the phone is there already.
    Peek,
    /// Find out what the ring looks like.
    Calibrate(RingWalk),
    /// Press `#` and look, at most once around.
    Press(Vec<Case>),
}

/// The same as contracts speak of it.
pub enum Reaching {
    Peek(Case),
    Calibrate(Case, Walk),
    /// What the looks have shown so far.
    Press(Case, Seq<Case>),
}

impl View for Reach {
    type V = Reaching;

    closed spec fn view(&self) -> Reaching {
        match self.phase {
            Phase::Peek => Reaching::Peek(self.want),
            Phase::Calibrate(w) => Reaching::Calibrate(self.want, w@),
            Phase::Press(saw) => Reaching::Press(self.want, saw@),
        }
    }
}

impl Reaching {
    /// The ring is known, unless it is just being calibrated, and the presses
    /// have not been once around yet.
    pub open spec fn valid(self, hand: Hand) -> bool {
        match self {
            Reaching::Peek(_) => hand.ring is Some,
            Reaching::Calibrate(_, w) => hand.ring is None && w.valid(),
            Reaching::Press(_, saw) => hand.ring matches Some(r) && saw.len() <= r.modes.len(),
        }
    }
}

/// Why a case could not be reached.
pub enum ReachError {
    /// `#` moves nothing.
    NoField,
    /// The calibration could not read the screen.
    Blind,
    /// The ring has no lowercase mode; it is kept for a look at it.
    NoLowercase(Indicator),
    /// The indicator is gone.
    Unseen,
    /// Once around the ring, and the case did not come up.
    Unreached { want: Case, modes: usize, saw: Vec<Case> },
}

/// The same as contracts speak of it.
pub enum Failure {
    NoField,
    Blind,
    NoLowercase(Ring),
    Unseen,
    Unreached { want: Case, modes: nat, saw: Seq<Case> },
}

impl View for ReachError {
    type V = Failure;

    open spec fn view(&self) -> Failure {
        match *self {
            ReachError::NoField => Failure::NoField,
            ReachError::Blind => Failure::Blind,
            ReachError::NoLowercase(i) => Failure::NoLowercase(i@),
            ReachError::Unseen => Failure::Unseen,
            ReachError::Unreached { want, modes, saw } => Failure::Unreached {
                want,
                modes: modes as nat,
                saw: saw@,
            },
        }
    }
}

/// What to do after a look.
pub enum ReachNext {
    Look(Reach),
    Done(Result<(), ReachError>),
}

/// The same as contracts speak of it.
pub enum NextLook {
    Look(Reaching),
    Reached,
    Failed(Failure),
}

impl View for ReachNext {
    type V = NextLook;

    open spec fn view(&self) -> NextLook {
        match *self {
            ReachNext::Look(r) => NextLook::Look(r@),
            ReachNext::Done(Ok(())) => NextLook::Reached,
            ReachNext::Done(Err(e)) => NextLook::Failed(e@),
        }
    }
}

/// What a failed calibration means for the case that was wanted.
pub open spec fn calibration_failure(o: Outcome) -> Failure {
    match o {
        Outcome::NoLowercase(r) => Failure::NoLowercase(r),
        Outcome::Blind => Failure::Blind,
        _ => Failure::NoField,
    }
}

/// What one look leads to while a case is being reached: the hand after it,
/// whether `#` is pressed, and what comes then.
pub open spec fn reached(hand: Hand, reach: Reaching, seen: Option<Mask>) -> (
    Hand,
    bool,
    NextLook,
) {
    match reach {
        Reaching::Peek(want) => if reading(hand.ring->0, seen) == Some(want) {
            (hand, false, NextLook::Reached)
        } else {
            (hand, false, NextLook::Look(Reaching::Press(want, seq![])))
        },
        Reaching::Calibrate(want, walk) => {
            let (press, next) = walked(walk, seen);
            match next {
                NextView::Look(w) => (hand, press, NextLook::Look(Reaching::Calibrate(want, w))),
                NextView::Done(Outcome::Ready(r)) => (
                    Hand { ring: Some(r), ..hand },
                    press,
                    NextLook::Look(Reaching::Press(want, seq![])),
                ),
                NextView::Done(o) => (
                    Hand { no_field: hand.no_field || o is NoField, ..hand },
                    press,
                    NextLook::Failed(calibration_failure(o)),
                ),
            }
        },
        Reaching::Press(want, saw) => {
            let ring = hand.ring->0;
            match reading(ring, seen) {
                None => (hand, false, NextLook::Failed(Failure::Unseen)),
                Some(case) => if case == want {
                    (hand, false, NextLook::Reached)
                } else if saw.len() < ring.modes.len() {
                    (hand, true, NextLook::Look(Reaching::Press(want, saw.push(case))))
                } else {
                    (
                        hand,
                        true,
                        NextLook::Failed(
                            Failure::Unreached {
                                want,
                                modes: ring.modes.len(),
                                saw: saw.push(case),
                            },
                        ),
                    )
                },
            }
        },
    }
}

/// How reaching a case begins: not at all where `#` is known to go nowhere.
pub open spec fn reach_begun(hand: Hand, want: Case) -> NextLook {
    if hand.no_field {
        NextLook::Failed(Failure::NoField)
    } else if hand.ring is Some {
        NextLook::Look(Reaching::Peek(want))
    } else {
        NextLook::Look(Reaching::Calibrate(want, Walk::start()))
    }
}

pub open spec fn case_name(c: Case) -> Seq<char> {
    match c {
        Case::Lower => "Lower"@,
        Case::Upper => "Upper"@,
        Case::Other => "Other"@,
    }
}

pub open spec fn case_names(saw: Seq<Case>) -> Seq<Seq<char>> {
    saw.map_values(|c: Case| case_name(c))
}

pub open spec fn failure_text(f: Failure) -> Seq<char> {
    match f {
        Failure::NoField => NO_FIELD@,
        Failure::Blind => "could not read the screen"@,
        Failure::NoLowercase(_) => "no lowercase mode found in the input-mode cycle"@,
        Failure::Unseen => "cannot see the phone's input mode; is a text field focused?"@,
        Failure::Unreached { want, modes, saw } => "could not reach "@ + case_name(want)
            + " on the phone's input-mode cycle ("@ + decimal(modes) + " modes; the walk saw "@
            + joined(case_names(saw), " -> "@) + ")"@,
    }
}

fn name_of(c: Case) -> (n: &'static str)
    ensures
        n@ == case_name(c),
{
    match c {
        Case::Lower => "Lower",
        Case::Upper => "Upper",
        Case::Other => "Other",
    }
}

impl ReachError {
    pub fn message(&self) -> (m: String)
        ensures
            m@ == failure_text(self@),
    {
        let mut m = String::new();
        match self {
            ReachError::NoField => m.append(NO_FIELD),
            ReachError::Blind => m.append("could not read the screen"),
            ReachError::NoLowercase(_) => m.append(
                "no lowercase mode found in the input-mode cycle",
            ),
            ReachError::Unseen => m.append(
                "cannot see the phone's input mode; is a text field focused?",
            ),
            ReachError::Unreached { want, modes, saw } => {
                m.append("could not reach ");
                m.append(name_of(*want));
                m.append(" on the phone's input-mode cycle (");
                push_decimal(&mut m, *modes as u64);
                m.append(" modes; the walk saw ");
                let mut names: Vec<String> = Vec::new();
                let mut i: usize = 0;
                proof {
                    assert(strings(names@) =~= case_names(saw@).subrange(0, 0));
                }
                while i < saw.len()
                    invariant
                        i <= saw@.len(),
                        strings(names@) == case_names(saw@).subrange(0, i as int),
                    decreases saw@.len() - i,
                {
                    let name = name_of(saw[i]).to_string();
                    let ghost before = strings(names@);
                    names.push(name);
                    i = i + 1;
                    proof {
                        assert(strings(names@) =~= before.push(name@));
                        assert(strings(names@) =~= case_names(saw@).subrange(0, i as int));
                    }
                }
                proof {
                    assert(case_names(saw@).subrange(0, saw@.len() as int) =~= case_names(saw@));
                }
                let list = join(&names, " -> ");
                m.append(list.as_str());
                m.append(")");
            },
        }
        proof {
            assert(m@ =~= failure_text(self@));
        }
        m
    }
}

impl Controller {
    pub fn new() -> (c: Controller)
        ensures
            c@ == (Hand { ring: None, tap: fresh(), no_field: false }),
            c@.valid(),
    {
        Controller { indicator: None, tap: MultiTap::new(), no_field: false }
    }

    /// Begin to get the keypad into `want`.
    pub fn reach_case(&self, want: Case) -> (next: ReachNext)
        requires
            self@.valid(),
        ensures
            next@ == reach_begun(self@, want),
            next matches ReachNext::Look(r) ==> r@.valid(self@),
    {
        if self.no_field {
            return ReachNext::Done(Err(ReachError::NoField));
        }
        match self.indicator {
            Some(_) => ReachNext::Look(Reach { want, phase: Phase::Peek }),
            None => ReachNext::Look(Reach { want, phase: Phase::Calibrate(RingWalk::new()) }),
        }
    }

    /// One look at the indicator while a case is being reached: whether to
    /// press `#` now, and what to do then.
    pub fn looked(&mut self, reach: Reach, seen: Option<Crop>) -> (turn: (bool, ReachNext))
        requires
            old(self)@.valid(),
            reach@.valid(old(self)@),
            seen matches Some(c) ==> c@.valid(),
        ensures
            (final(self)@, turn.0, turn.1@) == reached(
                old(self)@,
                reach@,
                match seen {
                    Some(c) => Some(c@),
                    None => None,
                },
            ),
            final(self)@.valid(),
            turn.1 matches ReachNext::Look(r) ==> r@.valid(final(self)@),
    {
        let want = reach.want;
        match reach.phase {
            Phase::Peek => {
                let case = self.read(&seen);
                if case == Some(want) {
                    (false, ReachNext::Done(Ok(())))
                } else {
                    let saw: Vec<Case> = Vec::new();
                    (false, ReachNext::Look(Reach { want, phase: Phase::Press(saw) }))
                }
            },
            Phase::Calibrate(walk) => {
                let (press, next) = Indicator::calibrate(walk, seen);
                match next {
                    Next::Look(w) => (
                        press,
                        ReachNext::Look(Reach { want, phase: Phase::Calibrate(w) }),
                    ),
                    Next::Done(Ok(indicator)) => {
                        self.indicator = Some(indicator);
                        let saw: Vec<Case> = Vec::new();
                        (press, ReachNext::Look(Reach { want, phase: Phase::Press(saw) }))
                    },
                    Next::Done(Err(CalibrateError::NoField)) => {
                        self.no_field = true;
                        (press, ReachNext::Done(Err(ReachError::NoField)))
                    },
                    Next::Done(Err(CalibrateError::Blind)) => (
                        press,
                        ReachNext::Done(Err(ReachError::Blind)),
                    ),
                    Next::Done(Err(CalibrateError::NoLowercase(i))) => (
                        press,
                        ReachNext::Done(Err(ReachError::NoLowercase(i))),
                    ),
                }
            },
            Phase::Press(saw) => {
                let mut saw = saw;
                let case = match self.read(&seen) {
                    None => return (false, ReachNext::Done(Err(ReachError::Unseen))),
                    Some(case) => case,
                };
                if case == want {
                    return (false, ReachNext::Done(Ok(())));
                }
                let modes: usize = self.modes();
                let again = saw.len() < modes;
                saw.push(case);
                if again {
                    (true, ReachNext::Look(Reach { want, phase: Phase::Press(saw) }))
                } else {
                    (true, ReachNext::Done(Err(ReachError::Unreached { want, modes, saw })))
                }
            },
        }
    }

    fn read(&self, seen: &Option<Crop>) -> (case: Option<Case>)
        requires
            self@.valid(),
            self@.ring is Some,
            seen matches Some(c) ==> c@.valid(),
        ensures
            case == reading(
                self@.ring->0,
                match *seen {
                    Some(c) => Some(c@),
                    None => None,
                },
            ),
    {
        match &self.indicator {
            Some(i) => i.read(seen.as_ref()),
            None => None,
        }
    }

    fn modes(&self) -> (n: usize)
        requires
            self@.ring is Some,
        ensures
            n == self@.ring->0.modes.len(),
    {
        match &self.indicator {
            Some(i) => i.modes(),
            None => 0,
        }
    }

    /// The user moved around the phone, so a field that was not listening a
    /// moment ago might be now.
    pub fn note_navigation(&mut self)
        ensures
            final(self)@ == (Hand { no_field: false, ..old(self)@ }),
    {
        self.no_field = false;
    }

    /// What calibration recorded.
    pub fn dump_modes(&self) -> (out: String)
        requires
            self@.valid(),
        ensures
            out@ == match self@.ring {
                Some(r) => ring_text(r),
                None => "(no input-mode ring calibrated)\n"@,
            },
    {
        match &self.indicator {
            Some(i) => i.dump(),
            None => "(no input-mode ring calibrated)\n".to_string(),
        }
    }
}

/// The case that a trial of both reaches for next, after so many were reached:
/// lowercase, then uppercase, and none after one that failed, since the presses
/// of another try may go to something that does not listen for text.
pub open spec fn next_trial(reached: nat, failed: bool) -> Option<Case> {
    if failed {
        None
    } else if reached == 0 {
        Some(Case::Lower)
    } else if reached == 1 {
        Some(Case::Upper)
    } else {
        None
    }
}

/// The case that a trial of both reaches for next.
pub fn case_to_try(reached: u32, failed: bool) -> (case: Option<Case>)
    ensures
        case == next_trial(reached as nat, failed),
{
    if failed {
        None
    } else if reached == 0 {
        Some(Case::Lower)
    } else if reached == 1 {
        Some(Case::Upper)
    } else {
        None
    }
}

/// The steps that delete the character before the caret: what is still
/// mid-cycle has to be committed first.
pub open spec fn backspaced(t: Taps) -> Seq<StepView> {
    settling(t).push(StepView::Key("DEL"@))
}

/// Planning a text character by character: the planner after it, the steps,
/// and the characters that the keypad has no way to reach.
pub open spec fn typed(t: Taps, text: Seq<char>) -> (Taps, Seq<StepView>, Seq<char>)
    decreases text.len(),
{
    if text.len() == 0 {
        (t, seq![], seq![])
    } else {
        let (t1, steps, skipped) = typed(t, text.drop_last());
        match planned(t1, text.last()) {
            Some((t2, these)) => (t2, steps + these, skipped),
            None => (t1, steps, skipped.push(text.last())),
        }
    }
}

/// The line that tells the pump to press a key: its node and its code.
pub open spec fn key_line(key: (u32, u16)) -> Seq<char> {
    decimal(key.0 as nat) + " "@ + decimal(key.1 as nat) + "\n"@
}

proof fn lemma_steps_concat(a: Seq<Step>, b: Seq<Step>)
    ensures
        steps_view(a + b) == steps_view(a) + steps_view(b),
{
    assert(steps_view(a + b) =~= steps_view(a) + steps_view(b));
}

impl Controller {
    /// The line that presses the key called `name`, if there is such a key.
    pub fn send(&self, name: &str) -> (line: Option<String>)
        ensures
            match line {
                Some(l) => named(uppercased(name@)) matches Some(key) && l@ == key_line(key),
                None => named(uppercased(name@)) is None,
            },
            is_ascii_chars(name@) ==> match line {
                Some(l) => named(ascii_upper(name@)) matches Some(key) && l@ == key_line(key),
                None => named(ascii_upper(name@)) is None,
            },
    {
        let (node, code) = match lookup(name) {
            Some(key) => key,
            None => return None,
        };
        let mut line = String::new();
        push_decimal(&mut line, node as u64);
        line.append(" ");
        push_decimal(&mut line, code as u64);
        line.append("\n");
        proof {
            assert(line@ =~= key_line((node, code)));
        }
        Some(line)
    }

    /// The key that cycles the phone's input mode, and the time its banner
    /// covers the indicator.
    pub fn press_mode_key(&self) -> (steps: Vec<Step>)
        ensures
            steps_view(steps@) == seq![StepView::Key("POUND"@), StepView::Wait(BANNER_MS)],
    {
        let mut steps: Vec<Step> = Vec::new();
        steps.push(Step::Key("POUND"));
        steps.push(Step::Wait(BANNER_MS));
        proof {
            assert(steps_view(steps@) =~= seq![
                StepView::Key("POUND"@),
                StepView::Wait(BANNER_MS),
            ]);
        }
        steps
    }

    /// The steps that type one character, or None if the keypad has no way to
    /// reach it.
    pub fn type_char(&mut self, ch: char) -> (steps: Option<Vec<Step>>)
        ensures
            match steps {
                Some(v) => planned(old(self)@.tap, ch) == Some((final(self)@.tap, steps_view(v@))),
                None => planned(old(self)@.tap, ch) is None && final(self)@.tap == old(self)@.tap,
            },
            final(self)@.ring == old(self)@.ring,
            final(self)@.no_field == old(self)@.no_field,
    {
        self.tap.plan(ch)
    }

    /// The steps that delete the character before the caret.
    pub fn backspace(&mut self) -> (steps: Vec<Step>)
        ensures
            steps_view(steps@) == backspaced(old(self)@.tap),
            final(self)@ == (Hand { tap: fresh(), ..old(self)@ }),
    {
        let mut steps = self.settle_typing();
        let ghost before = steps_view(steps@);
        steps.push(Step::Key("DEL"));
        proof {
            assert(steps_view(steps@) =~= before.push(StepView::Key("DEL"@)));
        }
        steps
    }

    /// Let the last character finish: until the timeout passes it is still
    /// mid-cycle, and whatever comes next would edit it.
    pub fn settle_typing(&mut self) -> (steps: Vec<Step>)
        ensures
            steps_view(steps@) == settling(old(self)@.tap),
            final(self)@ == (Hand { tap: fresh(), ..old(self)@ }),
    {
        self.tap.settle()
    }

    /// The steps that type a text and settle it, and the characters that the
    /// keypad has no way to reach, so that the caller can say so.
    pub fn type_text(&mut self, text: &str) -> (all: (Vec<Step>, Vec<char>))
        ensures
            ({
                let (t, steps, skipped) = typed(old(self)@.tap, text@);
                &&& steps_view(all.0@) == steps + settling(t)
                &&& all.1@ == skipped
            }),
            final(self)@ == (Hand { tap: fresh(), ..old(self)@ }),
    {
        let mut steps: Vec<Step> = Vec::new();
        let mut skipped: Vec<char> = Vec::new();
        let ghost start = self@;
        proof {
            assert(steps_view(steps@) =~= seq![]);
            assert(text@.subrange(0, 0) =~= seq![]);
        }
        for ch in it: text.chars()
            invariant
                it.seq() == text@,
                self@.ring == start.ring,
                self@.no_field == start.no_field,
                typed(start.tap, text@.subrange(0, it.index())) == (
                    self@.tap,
                    steps_view(steps@),
                    skipped@,
                ),
        {
            proof {
                assert(text@.subrange(0, it.index() + 1).drop_last() =~= text@.subrange(
                    0,
                    it.index(),
                ));
            }
            match self.type_char(ch) {
                Some(these) => {
                    let mut these = these;
                    proof {
                        lemma_steps_concat(steps@, these@);
                    }
                    steps.append(&mut these);
                },
                None => skipped.push(ch),
            }
        }
        proof {
            assert(text@.subrange(0, text@.len() as int) =~= text@);
        }
        let mut rest = self.settle_typing();
        proof {
            lemma_steps_concat(steps@, rest@);
        }
        steps.append(&mut rest);
        (steps, skipped)
    }
}

/// Once `#` has been shown to go nowhere, no look and no press follows until
/// the user has navigated: reaching a case fails at once, whatever the case.
pub proof fn law_no_field_presses_nothing(hand: Hand, reach: Reaching, seen: Option<Mask>, want: Case)
    requires
        hand.valid(),
        reach.valid(hand),
        seen matches Some(m) ==> m.valid(),
        reached(hand, reach, seen).2 == NextLook::Failed(Failure::NoField),
    ensures
        reach_begun(reached(hand, reach, seen).0, want) == NextLook::Failed(Failure::NoField),
        reach_begun(Hand { no_field: false, ..reached(hand, reach, seen).0 }, want) is Look,
{
}

/// A case counts as reached only where the last look showed it, and nothing is
/// pressed after that look.
pub proof fn law_reached_is_seen(hand: Hand, reach: Reaching, seen: Option<Mask>)
    requires
        hand.valid(),
        reach.valid(hand),
        seen matches Some(m) ==> m.valid(),
        reached(hand, reach, seen).2 is Reached,
    ensures
        match reach {
            Reaching::Peek(want) => reading(hand.ring->0, seen) == Some(want),
            Reaching::Press(want, _) => reading(hand.ring->0, seen) == Some(want),
            Reaching::Calibrate(_, _) => false,
        },
        !reached(hand, reach, seen).1,
{
}

/// Where the indicator cannot be read, nothing is pressed: `#` into something
/// that does not listen for text goes to the dialer.
pub proof fn law_blind_presses_nothing(hand: Hand, reach: Reaching)
    requires
        hand.valid(),
        reach.valid(hand),
    ensures
        !reached(hand, reach, None).1,
{
}

/// Where the phone is in the wanted case already, one look settles it and
/// nothing is pressed.
pub proof fn law_already_there_presses_nothing(hand: Hand, seen: Option<Mask>, want: Case)
    requires
        hand.valid(),
        !hand.no_field,
        hand.ring is Some,
        reading(hand.ring->0, seen) == Some(want),
    ensures
        reach_begun(hand, want) == NextLook::Look(Reaching::Peek(want)),
        reached(hand, Reaching::Peek(want), seen) == (hand, false, NextLook::Reached),
{
}

/// How many looks reaching a case takes at most from here on.
pub open spec fn looks_left(hand: Hand, reach: Reaching) -> int {
    match reach {
        Reaching::Peek(_) => hand.ring->0.modes.len() as int + 2,
        Reaching::Calibrate(_, w) => 2 * MAX_LOOKS + 2 - w.looks,
        Reaching::Press(_, saw) => hand.ring->0.modes.len() + 1 - saw.len(),
    }
}

/// Reaching a case comes to an end: each look leaves fewer to be taken, and so
/// there is a bound on the presses too.
pub proof fn law_reaching_ends(hand: Hand, reach: Reaching, seen: Option<Mask>)
    requires
        hand.valid(),
        reach.valid(hand),
        seen matches Some(m) ==> m.valid(),
    ensures
        reached(hand, reach, seen).2 matches NextLook::Look(next) ==> 0 < looks_left(
            reached(hand, reach, seen).0,
            next,
        ) < looks_left(hand, reach),
{
    if let Reaching::Calibrate(_, w) = reach {
        law_a_walk_stays_valid(w, seen);
    }
}

pub open spec fn reachable(text: Seq<char>) -> Seq<char>
    decreases text.len(),
{
    if text.len() == 0 {
        seq![]
    } else if typeable(text.last()) {
        reachable(text.drop_last()).push(text.last())
    } else {
        reachable(text.drop_last())
    }
}

proof fn lemma_reachable(text: Seq<char>)
    ensures
        all_typeable(reachable(text)),
        all_typeable(text) ==> reachable(text) == text,
    decreases text.len(),
{
    if text.len() > 0 {
        let short = text.drop_last();
        lemma_reachable(short);
        if all_typeable(text) {
            assert(typeable(text[text.len() - 1]));
            assert forall|i: int| 0 <= i < short.len() implies typeable(#[trigger] short[i]) by {
                assert(typeable(text[i]));
            }
            assert(reachable(text) =~= text);
        }
    } else {
        assert(reachable(text) =~= text);
    }
}

/// Typing a text plans exactly the characters that the keypad reaches, and
/// reports the others.
pub proof fn law_type_text_plans_what_is_typeable(t: Taps, text: Seq<char>)
    ensures
        all_typeable(reachable(text)),
        typed(t, text).0 == planned_text(t, reachable(text)).0,
        typed(t, text).1 == planned_text(t, reachable(text)).1,
        all_typeable(text) ==> reachable(text) == text && typed(t, text).2.len() == 0,
        typed(t, text).2.len() + reachable(text).len() == text.len(),
    decreases text.len(),
{
    lemma_reachable(text);
    if text.len() > 0 {
        let short = text.drop_last();
        law_type_text_plans_what_is_typeable(t, short);
        if typeable(text.last()) {
            assert(reachable(text).drop_last() =~= reachable(short));
        }
        if all_typeable(text) {
            assert(typeable(text[text.len() - 1]));
            assert forall|i: int| 0 <= i < short.len() implies typeable(#[trigger] short[i]) by {
                assert(typeable(text[i]));
            }
        }
    }
}

/// A text typed in one go lands in the field, all of it that the keypad can
/// reach, with no tap dropped.
pub proof fn law_typed_text_lands(d: Device, text: Seq<char>, upper: bool)
    requires
        d.suits(),
    ensures
        ({
            let (t, steps, skipped) = typed(fresh(), text);
            let end = run(d, idle(upper), steps + settling(t));
            !end.dropped && finish(end) == landed(reachable(text))
        }),
{
    law_type_text_plans_what_is_typeable(fresh(), text);
    law_typing_round_trip(d, reachable(text), upper);
}

/// What a run of looks leads to, from what comes next: the hand after them, how
/// often `#` was pressed on the way, and what comes then.  What is over takes no
/// more looks.
pub open spec fn pursued(hand: Hand, next: NextLook, looks: Seq<Option<Mask>>) -> (
    Hand,
    nat,
    NextLook,
)
    decreases looks.len(),
{
    match next {
        NextLook::Look(reach) if looks.len() > 0 => {
            let (hand1, press, next1) = reached(hand, reach, looks[0]);
            let (hand2, presses, next2) = pursued(hand1, next1, looks.skip(1));
            (
                hand2,
                presses + (if press {
                    1nat
                } else {
                    0nat
                }),
                next2,
            )
        },
        _ => (hand, 0, next),
    }
}

proof fn lemma_pressing(
    hand: Hand,
    ring: Ring,
    want: Case,
    saw: Seq<Case>,
    looks: Seq<Option<Mask>>,
    cases: Seq<Case>,
)
    requires
        hand.ring == Some(ring),
        looks.len() == cases.len(),
        looks.len() > 0,
        forall|i: int|
            0 <= i < looks.len() ==> reading(ring, #[trigger] looks[i]) == Some(cases[i]),
        forall|i: int| 0 <= i < cases.len() - 1 ==> #[trigger] cases[i] != want,
        saw.len() + looks.len() <= ring.modes.len() + 1,
    ensures
        cases.last() == want ==> pursued(
            hand,
            NextLook::Look(Reaching::Press(want, saw)),
            looks,
        ) == (hand, (looks.len() - 1) as nat, NextLook::Reached),
        cases.last() != want && saw.len() + looks.len() == ring.modes.len() + 1 ==> pursued(
            hand,
            NextLook::Look(Reaching::Press(want, saw)),
            looks,
        ) == (
            hand,
            looks.len(),
            NextLook::Failed(
                Failure::Unreached { want, modes: ring.modes.len(), saw: saw + cases },
            ),
        ),
    decreases looks.len(),
{
    let next = NextLook::Look(Reaching::Press(want, saw));
    assert(reading(ring, looks[0]) == Some(cases[0]));
    let (hand1, press, next1) = reached(hand, Reaching::Press(want, saw), looks[0]);
    reveal_with_fuel(pursued, 2);
    if looks.len() == 1 {
        assert(saw.push(cases[0]) =~= saw + cases);
    } else {
        let rest = looks.skip(1);
        let others = cases.skip(1);
        assert forall|i: int| 0 <= i < rest.len() implies reading(ring, #[trigger] rest[i]) == Some(
            others[i],
        ) by {
            assert(rest[i] == looks[i + 1]);
        }
        assert forall|i: int| 0 <= i < others.len() - 1 implies #[trigger] others[i] != want by {
            assert(others[i] == cases[i + 1]);
        }
        assert(cases[0] != want);
        lemma_pressing(hand, ring, want, saw.push(cases[0]), rest, others);
        assert(saw.push(cases[0]) + others =~= saw + cases);
        assert(others.last() == cases.last());
    }
}

/// With a ring that is known, a case is reached with as many presses as it takes
/// to get there: the first look is a peek, each look after it that shows another
/// case is followed by a press, and the look that shows the case ends it.  As
/// many presses as the ring has modes are made for it.
pub proof fn law_a_case_in_the_ring_is_reached(
    hand: Hand,
    ring: Ring,
    want: Case,
    peek: Option<Mask>,
    looks: Seq<Option<Mask>>,
    cases: Seq<Case>,
)
    requires
        !hand.no_field,
        hand.ring == Some(ring),
        reading(ring, peek) != Some(want),
        looks.len() == cases.len(),
        0 < looks.len() <= ring.modes.len() + 1,
        forall|i: int|
            0 <= i < looks.len() ==> reading(ring, #[trigger] looks[i]) == Some(cases[i]),
        forall|i: int| 0 <= i < cases.len() - 1 ==> #[trigger] cases[i] != want,
        cases.last() == want,
    ensures
        pursued(hand, reach_begun(hand, want), seq![peek] + looks) == (
            hand,
            (looks.len() - 1) as nat,
            NextLook::Reached,
        ),
{
    lemma_pressing(hand, ring, want, seq![], looks, cases);
    let all = seq![peek] + looks;
    assert(all[0] == peek);
    assert(all.skip(1) =~= looks);
}

/// A case that does not come up in one press more than the ring has modes is
/// given up, and the failure tells every case that was seen after the peek.
pub proof fn law_a_case_that_never_comes_is_given_up(
    hand: Hand,
    ring: Ring,
    want: Case,
    peek: Option<Mask>,
    looks: Seq<Option<Mask>>,
    cases: Seq<Case>,
)
    requires
        !hand.no_field,
        hand.ring == Some(ring),
        reading(ring, peek) != Some(want),
        looks.len() == cases.len(),
        looks.len() == ring.modes.len() + 1,
        forall|i: int|
            0 <= i < looks.len() ==> reading(ring, #[trigger] looks[i]) == Some(cases[i]),
        forall|i: int| 0 <= i < cases.len() ==> #[trigger] cases[i] != want,
    ensures
        pursued(hand, reach_begun(hand, want), seq![peek] + looks) == (
            hand,
            looks.len(),
            NextLook::Failed(Failure::Unreached { want, modes: ring.modes.len(), saw: cases }),
        ),
{
    lemma_pressing(hand, ring, want, seq![], looks, cases);
    assert(seq![] + cases =~= cases);
    let all = seq![peek] + looks;
    assert(all[0] == peek);
    assert(all.skip(1) =~= looks);
}

/// A look that cannot be read ends the pressing, with nothing pressed for it.
pub proof fn law_an_unread_look_ends_the_pressing(
    hand: Hand,
    ring: Ring,
    want: Case,
    saw: Seq<Case>,
    seen: Option<Mask>,
)
    requires
        hand.ring == Some(ring),
        reading(ring, seen) is None,
    ensures
        reached(hand, Reaching::Press(want, saw), seen) == (
            hand,
            false,
            NextLook::Failed(Failure::Unseen),
        ),
{
}

proof fn lemma_calibrating(hand: Hand, want: Case, ring: Seq<Mask>, back: int, at: int)
    requires
        all_valid(ring),
        all_differ(ring),
        ring.len() < MAX_LOOKS,
        0 <= back < ring.len() - 1,
        0 <= at <= ring.len(),
        concluded(ring) is Ready,
    ensures
        pursued(
            hand,
            NextLook::Look(Reaching::Calibrate(want, straight(ring.take(at)))),
            looked(ring).skip(at).push(Some(ring[back])),
        ) == (
            (Hand { ring: Some(concluded(ring)->Ready_0), ..hand }),
            (ring.len() - at) as nat,
            NextLook::Look(Reaching::Press(want, seq![])),
        ),
    decreases ring.len() - at,
{
    law_the_walk_stops_where_it_returns(ring, back);
    let looks = looked(ring).skip(at).push(Some(ring[back]));
    reveal_with_fuel(pursued, 2);
    if at == ring.len() {
        assert(ring.take(at) =~= ring);
        assert(looks[0] == Some(ring[back]));
    } else {
        assert(looks[0] == Some(ring[at]));
        assert(looks.skip(1) =~= looked(ring).skip(at + 1).push(Some(ring[back])));
        assert(walked(straight(ring.take(at)), Some(ring[at])) == (
            true,
            NextView::Look(straight(ring.take(at + 1))),
        ));
        lemma_calibrating(hand, want, ring, back, at + 1);
    }
}

/// Looks that show these modes one after the other.
pub open spec fn looked(ring: Seq<Mask>) -> Seq<Option<Mask>> {
    Seq::new(ring.len(), |i: int| Some(ring[i]))
}

/// A hand that knows no ring first walks it: up to eleven modes, one of them
/// lowercase, that come up one after the other, until one from before the last
/// comes back.  `#` is pressed once for each of them; the hand then knows the
/// ring, and goes on to press for the case that is wanted.
pub proof fn law_an_unknown_ring_is_walked_first(
    hand: Hand,
    want: Case,
    ring: Seq<Mask>,
    back: int,
    low: int,
)
    requires
        !hand.no_field,
        hand.ring is None,
        all_valid(ring),
        all_differ(ring),
        ring.len() < 12,
        0 <= back < ring.len() - 1,
        0 <= low < ring.len(),
        looks_lowercase(ring[low]),
        forall|i: int| 0 <= i < low ==> !looks_lowercase(#[trigger] ring[i]),
    ensures
        pursued(hand, reach_begun(hand, want), looked(ring).push(Some(ring[back]))) == (
            (Hand {
                ring: Some(
                    (Ring {
                        modes: ring,
                        lower: low,
                        upper: if low + 1 < ring.len() {
                            low + 1
                        } else {
                            0
                        },
                    }),
                ),
                ..hand
            }),
            ring.len(),
            NextLook::Look(Reaching::Press(want, seq![])),
        ),
{
    law_a_ring_with_lowercase_is_calibrated(ring);
    law_the_two_cases(ring);
    law_the_walk_stops_where_it_returns(ring, back);
    lemma_calibrating(hand, want, ring, back, 0);
    assert(looked(ring).skip(0) =~= looked(ring));
    let r = concluded(ring)->Ready_0;
    assert(r.lower == low) by {
        if r.lower < low {
            assert(looks_lowercase(ring[r.lower]));
        }
    }
}

/// A trial of both cases reaches for lowercase and then for uppercase, and for
/// no more; it reaches for nothing after a failure.
pub proof fn law_a_trial_is_of_both_cases(reached: nat)
    ensures
        next_trial(reached, true) is None,
        next_trial(reached, false) == Some(Case::Lower) <==> reached == 0,
        next_trial(reached, false) == Some(Case::Upper) <==> reached == 1,
        next_trial(reached, false) is None <==> reached >= 2,
{
}

/// What is said of a case that was not reached names it, tells how many modes
/// the ring has, and every case that was seen.
pub proof fn law_a_failure_tells_what_was_seen(want: Case, modes: nat, saw: Seq<Case>, i: int)
    requires
        0 <= i < saw.len(),
    ensures
        ({
            let said = failure_text(Failure::Unreached { want, modes, saw });
            &&& holds(said, "could not reach "@ + word_for(want))
            &&& holds(said, decimal(modes) + " modes"@)
            &&& holds(said, word_for(saw[i]))
        }),
{
    reveal_strlit(" modes; the walk saw ");
    reveal_strlit(" modes");
    let said = failure_text(Failure::Unreached { want, modes, saw });
    let names = case_names(saw);
    let list = joined(names, " -> "@);
    let first = "could not reach "@ + word_for(want);
    let second = decimal(modes) + " modes"@;
    let a = " on the phone's input-mode cycle ("@;
    let b = " modes; the walk saw "@;
    let rest = b.skip(6);
    assert(b =~= " modes"@ + rest);
    assert(said =~= seq![] + first + (a + decimal(modes) + b + list + ")"@));
    assert(said =~= (first + a) + second + (rest + list + ")"@));
    assert(said =~= (first + a + decimal(modes) + b) + list + ")"@);
    lemma_holds_itself(first);
    lemma_holds_itself(second);
    lemma_holds_within(seq![], first, a + decimal(modes) + b + list + ")"@, first);
    lemma_holds_within(first + a, second, rest + list + ")"@, second);
    assert(names[i] == word_for(saw[i]));
    lemma_holds_itself(names[i]);
    lemma_joined_holds(names, " -> "@, i, names[i]);
    lemma_holds_within(first + a + decimal(modes) + b, list, ")"@, names[i]);
}

/// The word for a case.
pub open spec fn word_for(c: Case) -> Seq<char> {
    if c == Case::Lower {
        "Lower"@
    } else if c == Case::Upper {
        "Upper"@
    } else {
        "Other"@
    }
}

/// A calibration that fails fails for the reason it gives: it saw nothing, or
/// nothing moved, or there is no lowercase mode in the ring, which is kept.
pub proof fn law_why_a_calibration_fails(hand: Hand, want: Case, walk: Walk, seen: Option<Mask>)
    ensures
        walked(walk, seen).1 == NextView::Done(Outcome::Blind) ==> reached(
            hand,
            Reaching::Calibrate(want, walk),
            seen,
        ) == (hand, walked(walk, seen).0, NextLook::Failed(Failure::Blind)),
        walked(walk, seen).1 == NextView::Done(Outcome::NoField) ==> reached(
            hand,
            Reaching::Calibrate(want, walk),
            seen,
        ) == (
            (Hand { no_field: true, ..hand }),
            walked(walk, seen).0,
            NextLook::Failed(Failure::NoField),
        ),
        walked(walk, seen).1 matches NextView::Done(Outcome::NoLowercase(r)) ==> reached(
            hand,
            Reaching::Calibrate(want, walk),
            seen,
        ) == (hand, walked(walk, seen).0, NextLook::Failed(Failure::NoLowercase(r))),
{
}

} // verus!
