//! Reading the phone's input mode off its own status bar.
//!
//! Whether the keypad types `abc` or `ABC` is the one thing about it that the
//! host cannot compute: the first press of a burst may only wake the mode
//! banner, the ring of modes differs between builds, and the input method
//! moves on its own.  So the mode is read rather than modelled.  The status
//! bar prints it, and a frame holds the status bar.
//!
//! Nothing here recognises glyphs in general.  A calibration walks the ring
//! once, keeps the pixels of each mode's indicator, and finds `ab` among them
//! by the one property that separates it from every other mode: its first
//! character is x-height, so it starts lower than the second.  Every later
//! reading is a nearest match against those saved crops.
use vstd::prelude::*;
use crate::crop::{
    count, crop, cropped, differing, distance, glyphs, lemma_count_none, looks_lowercase, rendered,
    run_of, runs_of, top_of, Crop, Mask,
};
use crate::text::{decimal, join, joined, push_decimal, strings};
use crate::words::{holds, lemma_holds_itself, lemma_holds_within};

verus! {

/// Which mode the keypad is in, as far as typing cares.
#[derive(PartialEq, Eq, Structural, Clone, Copy, Debug)]
pub enum Case {
    Lower,
    Upper,
    /// Sentence, digits, symbols: what a plan has to press past.
    Other,
}

/// What to say when `#` moves nothing: nearly always the focus is not in a
/// text field.
pub const NO_FIELD: &'static str =
    "the input mode did not change -- is a text field focused?  (`#` goes to the dialer when nothing is listening for text)";

/// How many looks a calibration takes at most.
pub const MAX_LOOKS: usize = 12;

pub open spec fn masks(crops: Seq<Crop>) -> Seq<Mask> {
    Seq::new(crops.len(), |i: int| crops[i]@)
}

pub open spec fn all_valid(ring: Seq<Mask>) -> bool {
    forall|i: int| 0 <= i < ring.len() ==> (#[trigger] ring[i]).valid()
}

/// Close enough to be called the same mode: under a fiftieth of the pixels.
/// Two modes may differ by as little as a twenty-fifth; two looks at one mode
/// differ by well under a hundredth.
pub open spec fn same(a: Mask, b: Mask) -> bool {
    distance(a, b) * 50 < b.ink.len()
}

/// The first of the ring, from `i` on, that is the same mode as `seen`.
pub open spec fn same_from(ring: Seq<Mask>, seen: Mask, i: int) -> Option<int>
    decreases ring.len() - i,
{
    if i >= ring.len() {
        None
    } else if same(ring[i], seen) {
        Some(i)
    } else {
        same_from(ring, seen, i + 1)
    }
}

/// The first of the ring, from `i` on, that looks lowercase.
pub open spec fn lowercase_from(ring: Seq<Mask>, i: int) -> Option<int>
    decreases ring.len() - i,
{
    if i >= ring.len() {
        None
    } else if looks_lowercase(ring[i]) {
        Some(i)
    } else {
        lowercase_from(ring, i + 1)
    }
}

/// The one of the ring that is nearest to `seen`, the first of several.
pub open spec fn nearest(ring: Seq<Mask>, seen: Mask) -> int
    recommends
        ring.len() > 0,
    decreases ring.len(),
{
    if ring.len() <= 1 {
        0
    } else {
        let before = nearest(ring.drop_last(), seen);
        if distance(ring.last(), seen) < distance(ring[before], seen) {
            ring.len() - 1
        } else {
            before
        }
    }
}

/// What each mode of the phone's ring looks like, and which of them are the
/// two cases.
pub struct Indicator {
    /// One crop per ring position, in the order `#` walks them.
    ring: Vec<Crop>,
    lower: usize,
    upper: usize,
}

/// A calibrated ring as contracts speak of it.
pub struct Ring {
    pub modes: Seq<Mask>,
    pub lower: int,
    pub upper: int,
}

impl View for Indicator {
    type V = Ring;

    closed spec fn view(&self) -> Ring {
        Ring { modes: masks(self.ring@), lower: self.lower as int, upper: self.upper as int }
    }
}

pub open spec fn case_at(r: Ring, at: int) -> Case {
    if at == r.lower {
        Case::Lower
    } else if at == r.upper {
        Case::Upper
    } else {
        Case::Other
    }
}

/// What a look at the indicator says: the case of the nearest mode, or nothing
/// where it is too far from every mode that is known.
pub open spec fn reading(r: Ring, seen: Option<Mask>) -> Option<Case> {
    match seen {
        None => None,
        Some(m) => if r.modes.len() == 0 {
            None
        } else {
            let at = nearest(r.modes, m);
            if distance(r.modes[at], m) * 4 > m.ink.len() {
                None
            } else {
                Some(case_at(r, at))
            }
        },
    }
}

fn position_of_same(ring: &Vec<Crop>, seen: &Crop) -> (at: Option<usize>)
    requires
        all_valid(masks(ring@)),
        seen@.valid(),
    ensures
        match at {
            Some(i) => same_from(masks(ring@), seen@, 0) == Some(i as int),
            None => same_from(masks(ring@), seen@, 0) is None,
        },
{
    let mut i: usize = 0;
    while i < ring.len()
        invariant
            i <= ring@.len(),
            all_valid(masks(ring@)),
            seen@.valid(),
            same_from(masks(ring@), seen@, 0) == same_from(masks(ring@), seen@, i as int),
        decreases ring@.len() - i,
    {
        proof {
            assert(masks(ring@)[i as int].valid());
        }
        let d: usize = ring[i].distance(seen);
        if (d as u128) * 50 < seen.pixels() as u128 {
            return Some(i);
        }
        i = i + 1;
    }
    None
}

fn position_of_lowercase(ring: &Vec<Crop>) -> (at: Option<usize>)
    requires
        all_valid(masks(ring@)),
    ensures
        match at {
            Some(i) => lowercase_from(masks(ring@), 0) == Some(i as int) && i < ring@.len(),
            None => lowercase_from(masks(ring@), 0) is None,
        },
{
    let mut i: usize = 0;
    while i < ring.len()
        invariant
            i <= ring@.len(),
            all_valid(masks(ring@)),
            lowercase_from(masks(ring@), 0) == lowercase_from(masks(ring@), i as int),
        decreases ring@.len() - i,
    {
        proof {
            assert(masks(ring@)[i as int].valid());
        }
        if ring[i].looks_lowercase() {
            return Some(i);
        }
        i = i + 1;
    }
    None
}

impl Indicator {
    /// The case that a look at the indicator shows, or None where there was
    /// nothing to look at or it is no mode that is known.
    pub fn read(&self, seen: Option<&Crop>) -> (case: Option<Case>)
        requires
            all_valid(self@.modes),
            seen matches Some(c) ==> c@.valid(),
        ensures
            case == reading(
                self@,
                match seen {
                    Some(c) => Some(c@),
                    None => None,
                },
            ),
    {
        let seen = match seen {
            Some(c) => c,
            None => return None,
        };
        if self.ring.len() == 0 {
            return None;
        }
        let ghost modes = self@.modes;
        proof {
            assert(modes[0].valid());
            assert(modes.subrange(0, 1).len() == 1);
        }
        let mut at: usize = 0;
        let mut best: usize = self.ring[0].distance(seen);
        let mut i: usize = 1;
        while i < self.ring.len()
            invariant
                1 <= i <= self.ring@.len(),
                at < i,
                modes == masks(self.ring@),
                all_valid(modes),
                seen@.valid(),
                best == distance(modes[at as int], seen@),
                at == nearest(modes.subrange(0, i as int), seen@),
            decreases self.ring@.len() - i,
        {
            proof {
                assert(modes[i as int].valid());
                assert(modes.subrange(0, i as int + 1).drop_last() =~= modes.subrange(0, i as int));
            }
            let d: usize = self.ring[i].distance(seen);
            if d < best {
                best = d;
                at = i;
            }
            i = i + 1;
        }
        proof {
            assert(modes.subrange(0, modes.len() as int) =~= modes);
        }
        if (best as u128) * 4 > seen.pixels() as u128 {
            return None;
        }
        if at == self.lower {
            Some(Case::Lower)
        } else if at == self.upper {
            Some(Case::Upper)
        } else {
            Some(Case::Other)
        }
    }

    /// How many modes the ring has.
    pub fn modes(&self) -> (n: usize)
        ensures
            n == self@.modes.len(),
    {
        self.ring.len()
    }
}

/// Why a calibration came to nothing.
pub enum CalibrateError {
    /// The indicator could not be read off the screen.
    Blind,
    /// `#` moved nothing.
    NoField,
    /// No mode of the ring looks lowercase; the ring is kept for a look at it.
    NoLowercase(Indicator),
}

impl CalibrateError {
    pub fn message(&self) -> (m: &'static str)
        ensures
            m@ == match *self {
                CalibrateError::Blind => "could not read the screen"@,
                CalibrateError::NoField => NO_FIELD@,
                CalibrateError::NoLowercase(
                    _,
                ) => "no lowercase mode found in the input-mode cycle"@,
            },
    {
        match self {
            CalibrateError::Blind => "could not read the screen",
            CalibrateError::NoField => NO_FIELD,
            CalibrateError::NoLowercase(_) => "no lowercase mode found in the input-mode cycle",
        }
    }
}

/// A calibration under way: what was seen so far.
pub struct RingWalk {
    ring: Vec<Crop>,
    /// How many presses in a row have changed nothing.
    stale: usize,
    looks: usize,
}

/// A calibration under way as contracts speak of it.
pub struct Walk {
    pub ring: Seq<Mask>,
    pub stale: nat,
    pub looks: nat,
}

impl View for RingWalk {
    type V = Walk;

    closed spec fn view(&self) -> Walk {
        Walk { ring: masks(self.ring@), stale: self.stale as nat, looks: self.looks as nat }
    }
}

/// No two of the ring are the same mode.
pub open spec fn all_differ(ring: Seq<Mask>) -> bool {
    forall|i: int, j: int| 0 <= i < j < ring.len() ==> !#[trigger] same(ring[i], ring[j])
}

impl Walk {
    /// What every walk keeps: its ring holds no mode twice, at most one press
    /// in a row has changed nothing, and there are looks left.
    pub open spec fn valid(self) -> bool {
        &&& all_valid(self.ring)
        &&& all_differ(self.ring)
        &&& self.stale <= 1
        &&& self.looks < MAX_LOOKS
        &&& self.ring.len() <= self.looks
        &&& (self.ring.len() == 0) == (self.looks == 0)
    }

    pub open spec fn start() -> Walk {
        Walk { ring: seq![], stale: 0, looks: 0 }
    }
}

/// What a walk does next.
pub enum Next {
    /// Look at the indicator and go on.
    Look(RingWalk),
    /// The walk is over.
    Done(Result<Indicator, CalibrateError>),
}

/// What comes of a calibration, as contracts speak of it.
pub enum Outcome {
    Ready(Ring),
    Blind,
    NoField,
    NoLowercase(Ring),
}

pub open spec fn outcome_of(r: Result<Indicator, CalibrateError>) -> Outcome {
    match r {
        Ok(i) => Outcome::Ready(i@),
        Err(CalibrateError::Blind) => Outcome::Blind,
        Err(CalibrateError::NoField) => Outcome::NoField,
        Err(CalibrateError::NoLowercase(i)) => Outcome::NoLowercase(i@),
    }
}

pub enum NextView {
    Look(Walk),
    Done(Outcome),
}

impl View for Next {
    type V = NextView;

    open spec fn view(&self) -> NextView {
        match *self {
            Next::Look(w) => NextView::Look(w@),
            Next::Done(r) => NextView::Done(outcome_of(r)),
        }
    }
}

/// What a finished walk amounts to.  `#` goes from lowercase to uppercase on
/// every build seen, so uppercase is the mode after the first that looks
/// lowercase.
pub open spec fn concluded(ring: Seq<Mask>) -> Outcome {
    if ring.len() < 2 {
        Outcome::NoField
    } else {
        match lowercase_from(ring, 0) {
            None => Outcome::NoLowercase(Ring { modes: ring, lower: 0, upper: 0 }),
            Some(lower) => Outcome::Ready(
                Ring { modes: ring, lower, upper: (lower + 1) % (ring.len() as int) },
            ),
        }
    }
}

/// After a press, the walk looks again unless it has looked often enough.
pub open spec fn pressed(w: Walk) -> NextView {
    if w.looks >= MAX_LOOKS {
        NextView::Done(concluded(w.ring))
    } else {
        NextView::Look(w)
    }
}

/// What one look of a walk leads to: whether `#` is pressed, and what comes
/// after that.
///
/// The walk is over when the indicator is back at a mode seen before the last
/// one: at the first, or at a later one where the first is a start state that
/// nothing returns to.  The last mode once more is a press that changed
/// nothing: one is expected, since a press may only wake the mode banner, but a
/// second one means that nothing is listening for text.
pub open spec fn walked(w: Walk, seen: Option<Mask>) -> (bool, NextView) {
    match seen {
        None => (false, NextView::Done(Outcome::Blind)),
        Some(m) => match same_from(w.ring, m, 0) {
            None => (true, pressed(Walk { ring: w.ring.push(m), stale: 0, looks: w.looks + 1 })),
            Some(at) => if at < w.ring.len() - 1 {
                (false, NextView::Done(concluded(w.ring)))
            } else if w.stale >= 1 {
                (false, NextView::Done(Outcome::NoField))
            } else {
                (true, pressed(Walk { ring: w.ring, stale: w.stale + 1, looks: w.looks + 1 }))
            },
        },
    }
}

impl RingWalk {
    pub fn new() -> (w: RingWalk)
        ensures
            w@ == Walk::start(),
            w@.valid(),
    {
        let w = RingWalk { ring: Vec::new(), stale: 0, looks: 0 };
        proof {
            assert(w@.ring =~= seq![]);
        }
        w
    }

    fn conclude(self) -> (r: Result<Indicator, CalibrateError>)
        requires
            all_valid(self@.ring),
        ensures
            outcome_of(r) == concluded(self@.ring),
    {
        let ring = self.ring;
        if ring.len() < 2 {
            return Err(CalibrateError::NoField);
        }
        match position_of_lowercase(&ring) {
            None => Err(CalibrateError::NoLowercase(Indicator { ring, lower: 0, upper: 0 })),
            Some(lower) => {
                let n: usize = ring.len();
                let upper: usize = (lower + 1) % n;
                Ok(Indicator { ring, lower, upper })
            },
        }
    }

    fn after_press(self) -> (next: Next)
        requires
            all_valid(self@.ring),
        ensures
            next@ == pressed(self@),
    {
        if self.looks >= MAX_LOOKS {
            Next::Done(self.conclude())
        } else {
            Next::Look(self)
        }
    }
}

impl Indicator {
    /// One look of the walk around the `#` ring that records what each mode
    /// looks like: whether to press `#` now, and what to do then.
    pub fn calibrate(walk: RingWalk, seen: Option<Crop>) -> (turn: (bool, Next))
        requires
            walk@.valid(),
            seen matches Some(c) ==> c@.valid(),
        ensures
            (turn.0, turn.1@) == walked(
                walk@,
                match seen {
                    Some(c) => Some(c@),
                    None => None,
                },
            ),
            turn.1 matches Next::Look(w) ==> w@.valid(),
            turn.1 matches Next::Done(Ok(i)) ==> all_valid(i@.modes),
            turn.1 matches Next::Done(Err(CalibrateError::NoLowercase(i))) ==> all_valid(i@.modes),
    {
        let seen = match seen {
            Some(c) => c,
            None => return (false, Next::Done(Err(CalibrateError::Blind))),
        };
        let mut walk = walk;
        let at = position_of_same(&walk.ring, &seen);
        let ghost before = walk@;
        proof {
            lemma_same_from(walk@.ring, seen@, 0);
        }
        match at {
            None => {
                let ghost m = seen@;
                walk.ring.push(seen);
                walk.stale = 0;
                walk.looks = walk.looks + 1;
                proof {
                    assert(masks(walk.ring@) =~= before.ring.push(m));
                    assert(all_valid(walk@.ring));
                    assert(all_differ(walk@.ring));
                }
                (true, walk.after_press())
            },
            Some(i) => {
                if i < walk.ring.len() - 1 {
                    (false, Next::Done(walk.conclude()))
                } else if walk.stale >= 1 {
                    (false, Next::Done(Err(CalibrateError::NoField)))
                } else {
                    walk.stale = walk.stale + 1;
                    walk.looks = walk.looks + 1;
                    (true, walk.after_press())
                }
            },
        }
    }
}

proof fn lemma_same_from(ring: Seq<Mask>, seen: Mask, i: int)
    requires
        0 <= i,
    ensures
        match same_from(ring, seen, i) {
            Some(k) => i <= k < ring.len() && same(ring[k], seen) && forall|j: int|
                i <= j < k ==> !#[trigger] same(ring[j], seen),
            None => forall|j: int| i <= j < ring.len() ==> !#[trigger] same(ring[j], seen),
        },
    decreases ring.len() - i,
{
    if i < ring.len() && !same(ring[i], seen) {
        lemma_same_from(ring, seen, i + 1);
    }
}

proof fn lemma_lowercase_from(ring: Seq<Mask>, i: int)
    requires
        0 <= i,
    ensures
        match lowercase_from(ring, i) {
            Some(k) => i <= k < ring.len() && looks_lowercase(ring[k]) && forall|j: int|
                i <= j < k ==> !looks_lowercase(#[trigger] ring[j]),
            None => forall|j: int| i <= j < ring.len() ==> !looks_lowercase(#[trigger] ring[j]),
        },
    decreases ring.len() - i,
{
    if i < ring.len() && !looks_lowercase(ring[i]) {
        lemma_lowercase_from(ring, i + 1);
    }
}

proof fn lemma_nearest(ring: Seq<Mask>, seen: Mask)
    requires
        ring.len() > 0,
    ensures
        0 <= nearest(ring, seen) < ring.len(),
        forall|j: int|
            0 <= j < ring.len() ==> distance(ring[nearest(ring, seen)], seen) <= distance(
                #[trigger] ring[j],
                seen,
            ),
        forall|j: int|
            0 <= j < nearest(ring, seen) ==> distance(ring[nearest(ring, seen)], seen) < distance(
                #[trigger] ring[j],
                seen,
            ),
    decreases ring.len(),
{
    if ring.len() > 1 {
        let short = ring.drop_last();
        lemma_nearest(short, seen);
        let b = nearest(short, seen);
        assert forall|j: int| 0 <= j < ring.len() implies distance(
            ring[nearest(ring, seen)],
            seen,
        ) <= distance(#[trigger] ring[j], seen) by {
            if j < short.len() {
                assert(short[j] == ring[j]);
            }
            assert(short[b] == ring[b]);
        }
        assert forall|j: int| 0 <= j < nearest(ring, seen) implies distance(
            ring[nearest(ring, seen)],
            seen,
        ) < distance(#[trigger] ring[j], seen) by {
            assert(short[j] == ring[j]);
            assert(short[b] == ring[b]);
        }
    }
}

/// A calibration that succeeds has at least two modes; its lowercase mode is
/// the first that looks lowercase, and its uppercase mode is the next one of
/// the ring, and another one.
pub proof fn law_the_two_cases(ring: Seq<Mask>)
    ensures
        concluded(ring) matches Outcome::Ready(r) ==> {
            &&& r.modes == ring
            &&& ring.len() >= 2
            &&& 0 <= r.lower < ring.len()
            &&& 0 <= r.upper < ring.len()
            &&& looks_lowercase(ring[r.lower])
            &&& forall|j: int| 0 <= j < r.lower ==> !looks_lowercase(#[trigger] ring[j])
            &&& r.upper == (if r.lower + 1 < ring.len() {
                r.lower + 1
            } else {
                0
            })
            &&& r.upper != r.lower
        },
{
    lemma_lowercase_from(ring, 0);
    if let Outcome::Ready(r) = concluded(ring) {
        let n = ring.len() as int;
        if r.lower + 1 < n {
            assert((r.lower + 1) % n == r.lower + 1) by (nonlinear_arith)
                requires
                    0 <= r.lower + 1 < n,
            ;
        } else {
            assert(n % n == 0) by (nonlinear_arith)
                requires
                    n > 0,
            ;
        }
    }
}

/// A walk that has seen these modes one after the other, each press leading to
/// the next.
pub open spec fn straight(ring: Seq<Mask>) -> Walk {
    Walk { ring, stale: 0, looks: ring.len() }
}

/// The walk stops when the indicator returns to a mode already seen, whichever
/// it is: looks that show different modes one after the other are all kept, and
/// a look at any but the last of them ends the walk with that ring, unpressed.
pub proof fn law_the_walk_stops_where_it_returns(ring: Seq<Mask>, back: int)
    requires
        all_valid(ring),
        all_differ(ring),
        ring.len() < MAX_LOOKS,
        0 <= back < ring.len() - 1,
    ensures
        straight(ring.take(0)) == Walk::start(),
        forall|i: int|
            0 <= i < ring.len() ==> #[trigger] walked(straight(ring.take(i)), Some(ring[i])) == (
                true,
                NextView::Look(straight(ring.take(i + 1))),
            ),
        walked(straight(ring), Some(ring[back])) == (
            false,
            NextView::Done(concluded(ring)),
        ),
{
    assert(ring.take(0) =~= seq![]);
    assert forall|i: int| 0 <= i < ring.len() implies #[trigger] walked(
        straight(ring.take(i)),
        Some(ring[i]),
    ) == (true, NextView::Look(straight(ring.take(i + 1)))) by {
        lemma_same_from(ring.take(i), ring[i], 0);
        if let Some(k) = same_from(ring.take(i), ring[i], 0) {
            assert(same(ring[k], ring[i]));
        }
        assert(ring.take(i).push(ring[i]) =~= ring.take(i + 1));
    }
    lemma_none_differ(ring[back]);
    lemma_same_from(ring, ring[back], 0);
    assert(ring[back].valid());
    assert(same(ring[back], ring[back]));
    if let Some(k) = same_from(ring, ring[back], 0) {
        if k < back {
            assert(same(ring[k], ring[back]));
        }
    }
}

proof fn lemma_none_differ(m: Mask)
    ensures
        distance(m, m) == 0,
{
    lemma_count_none(differing(m, m));
}

/// What was calibrated reads back: a look that shows a mode of the ring as it
/// was recorded is read as that mode.
pub proof fn law_a_recorded_mode_reads_back(r: Ring, i: int)
    requires
        all_valid(r.modes),
        all_differ(r.modes),
        0 <= i < r.modes.len(),
    ensures
        reading(r, Some(r.modes[i])) == Some(case_at(r, i)),
{
    let seen = r.modes[i];
    lemma_none_differ(seen);
    lemma_nearest(r.modes, seen);
    let at = nearest(r.modes, seen);
    assert(seen.valid());
    assert(distance(r.modes[at], seen) <= distance(r.modes[i], seen));
    if at > i {
        assert(distance(r.modes[at], seen) < distance(r.modes[i], seen));
    } else if at < i {
        assert(distance(r.modes[at], seen) >= 0);
        assert(same(r.modes[at], r.modes[i]));
    }
}

/// A key that nothing listens to is pressed no more than twice: a phone that
/// shows the same thing at every look ends the walk at the third, unpressed.
pub proof fn law_a_dead_key_is_pressed_twice(m: Mask)
    requires
        m.valid(),
    ensures
        ({
            let (press1, next1) = walked(Walk::start(), Some(m));
            &&& press1
            &&& next1 matches NextView::Look(w1)
            &&& ({
                let (press2, next2) = walked(w1, Some(m));
                &&& press2
                &&& next2 matches NextView::Look(w2)
                &&& walked(w2, Some(m)) == (false, NextView::Done(Outcome::NoField))
            })
        }),
{
    lemma_none_differ(m);
    let ring = Walk::start().ring.push(m);
    assert(ring[0] == m);
    assert(same(m, m));
    assert(same_from(Walk::start().ring, m, 0) is None);
    assert(same_from(ring, m, 0) == Some(0int));
}

/// The walk keeps what it promises: no mode twice in its ring, never two
/// presses in a row that change nothing, and never more presses than looks.
pub proof fn law_a_walk_stays_valid(w: Walk, seen: Option<Mask>)
    requires
        w.valid(),
        seen matches Some(m) ==> m.valid(),
    ensures
        walked(w, seen).1 matches NextView::Look(next) ==> next.valid() && next.looks == w.looks + 1
            && walked(w, seen).0,
        walked(w, seen).1 matches NextView::Done(Outcome::Ready(r)) ==> all_differ(r.modes)
            && all_valid(r.modes),
{
    if let Some(m) = seen {
        lemma_same_from(w.ring, m, 0);
        let ring = w.ring.push(m);
        assert forall|i: int| 0 <= i < ring.len() implies (#[trigger] ring[i]).valid() by {}
        if same_from(w.ring, m, 0) is None {
            assert forall|i: int, j: int| 0 <= i < j < ring.len() implies !#[trigger] same(
                ring[i],
                ring[j],
            ) by {
                if j < w.ring.len() {
                    assert(!same(w.ring[i], w.ring[j]));
                }
            }
        }
    }
}

/// How a top is printed.
pub open spec fn top_text(top: Option<int>) -> Seq<char> {
    match top {
        Some(y) => "Some("@ + decimal(y as nat) + ")"@,
        None => "None"@,
    }
}

pub open spec fn tops_of(m: Mask) -> Seq<Seq<char>> {
    Seq::new(glyphs(m).len(), |i: int| top_text(top_of(m, glyphs(m)[i])))
}

/// What is printed of one mode of a ring.
pub open spec fn mode_text(m: Mask, i: int) -> Seq<char> {
    "-- ring["@ + decimal(i as nat) + "] glyphs="@ + decimal(glyphs(m).len()) + " tops=["@ + joined(
        tops_of(m),
        ", "@,
    ) + "] lower="@ + (if looks_lowercase(m) {
        "true"@
    } else {
        "false"@
    }) + "\n"@ + rendered(m)
}

pub open spec fn modes_text(modes: Seq<Mask>) -> Seq<char>
    decreases modes.len(),
{
    if modes.len() == 0 {
        seq![]
    } else {
        modes_text(modes.drop_last()) + mode_text(modes.last(), modes.len() - 1)
    }
}

pub open spec fn ring_text(r: Ring) -> Seq<char> {
    "-- ring of "@ + decimal(r.modes.len()) + " modes; lower=ring["@ + decimal(r.lower as nat)
        + "] upper=ring["@ + decimal(r.upper as nat) + "]\n"@ + modes_text(r.modes)
}

/// What is printed of one mode: the glyphs it was taken for, and its picture.
fn describe_mode(c: &Crop, i: usize) -> (out: String)
    requires
        c@.valid(),
    ensures
        out@ == mode_text(c@, i as int),
{
    let found = c.glyphs();
    let mut tops: Vec<String> = Vec::new();
    let mut k: usize = 0;
    proof {
        assert(strings(tops@) =~= tops_of(c@).subrange(0, 0));
        assert(runs_of(found@).len() == found@.len());
    }
    while k < found.len()
        invariant
            c@.valid(),
            k <= found@.len(),
            runs_of(found@) == glyphs(c@),
            found@.len() == glyphs(c@).len(),
            forall|j: int|
                0 <= j < found@.len() ==> (#[trigger] found@[j]).0 < found@[j].1 <= c@.w,
            strings(tops@) == tops_of(c@).subrange(0, k as int),
        decreases found@.len() - k,
    {
        let top = c.top_of(found[k]);
        proof {
            assert(glyphs(c@)[k as int] == run_of(found@[k as int]));
        }
        let mut text = String::new();
        match top {
            Some(y) => {
                text.append("Some(");
                push_decimal(&mut text, y as u64);
                text.append(")");
            },
            None => text.append("None"),
        }
        proof {
            assert(text@ =~= top_text(top_of(c@, glyphs(c@)[k as int])));
        }
        let ghost before = strings(tops@);
        tops.push(text);
        k = k + 1;
        proof {
            assert(strings(tops@) =~= before.push(text@));
            assert(strings(tops@) =~= tops_of(c@).subrange(0, k as int));
        }
    }
    proof {
        assert(tops_of(c@).subrange(0, found@.len() as int) =~= tops_of(c@));
    }
    let mut out = String::new();
    out.append("-- ring[");
    push_decimal(&mut out, i as u64);
    out.append("] glyphs=");
    push_decimal(&mut out, found.len() as u64);
    out.append(" tops=[");
    let list = join(&tops, ", ");
    out.append(list.as_str());
    out.append("] lower=");
    if c.looks_lowercase() {
        out.append("true");
    } else {
        out.append("false");
    }
    out.append("\n");
    let picture = c.render();
    out.append(picture.as_str());
    proof {
        assert(out@ =~= mode_text(c@, i as int));
    }
    out
}

impl Indicator {
    /// What each mode of the ring looks like, for when a build's status bar
    /// does not sit where it is expected and someone has to see why.
    pub fn dump(&self) -> (out: String)
        requires
            all_valid(self@.modes),
        ensures
            out@ == ring_text(self@),
    {
        let mut out = String::new();
        out.append("-- ring of ");
        push_decimal(&mut out, self.ring.len() as u64);
        out.append(" modes; lower=ring[");
        push_decimal(&mut out, self.lower as u64);
        out.append("] upper=ring[");
        push_decimal(&mut out, self.upper as u64);
        out.append("]\n");
        let ghost head = out@;
        let ghost modes = self@.modes;
        let mut i: usize = 0;
        proof {
            assert(head + modes_text(modes.subrange(0, 0)) =~= head);
            assert(modes.len() == self.ring@.len());
        }
        while i < self.ring.len()
            invariant
                i <= self.ring@.len(),
                modes == masks(self.ring@),
                all_valid(modes),
                out@ == head + modes_text(modes.subrange(0, i as int)),
            decreases self.ring@.len() - i,
        {
            proof {
                assert(modes[i as int].valid());
            }
            let text = describe_mode(&self.ring[i], i);
            out.append(text.as_str());
            i = i + 1;
            proof {
                let done = modes.subrange(0, i as int);
                assert(done.drop_last() =~= modes.subrange(0, i - 1));
                assert(out@ =~= head + modes_text(done));
            }
        }
        proof {
            assert(modes.subrange(0, modes.len() as int) =~= modes);
            assert(out@ =~= ring_text(self@));
        }
        out
    }
}

/// How often the screen is looked at before the indicator counts as unread.
pub const LOOK_TRIES: u32 = 6;

/// The pause between two such looks, in milliseconds.
pub const LOOK_PAUSE_MS: u64 = 400;

/// A crop that can be an indicator: at least a fiftieth of it is ink, and less
/// than half.  A banner or a blank bar is neither.
pub open spec fn legible(m: Mask) -> bool {
    count(m.ink) * 50 >= m.ink.len() && count(m.ink) * 2 < m.ink.len()
}

/// The indicator in a frame, where the frame shows one.
pub fn legible_crop(frame: &[u8], w: u32, h: u32) -> (found: Option<Crop>)
    ensures
        match found {
            Some(c) => cropped(frame@, w as int, h as int) == Some(c@) && c@.valid() && legible(c@),
            None => match cropped(frame@, w as int, h as int) {
                Some(m) => !legible(m),
                None => true,
            },
        },
{
    let c = match crop(frame, w, h) {
        Some(c) => c,
        None => return None,
    };
    let ink: usize = c.inked_pixels();
    let n: usize = c.pixels();
    if (ink as u128) * 50 >= n as u128 && (ink as u128) * 2 < n as u128 {
        Some(c)
    } else {
        None
    }
}

/// Looking for the indicator: how often it was looked for in vain.
pub struct Look {
    misses: u32,
}

/// What comes of a grabbed frame.
pub enum Glance {
    /// The indicator.
    Seen(Crop),
    /// Something covers it: pause for so many milliseconds, then grab again.
    Again(u64),
    /// It was looked for often enough: pause once more, and give up.
    GiveUp(u64),
}

/// The same as contracts speak of it.
pub enum Glimpse {
    Seen(Mask),
    Again(u64),
    GiveUp(u64),
}

impl View for Look {
    type V = nat;

    closed spec fn view(&self) -> nat {
        self.misses as nat
    }
}

impl View for Glance {
    type V = Glimpse;

    open spec fn view(&self) -> Glimpse {
        match *self {
            Glance::Seen(c) => Glimpse::Seen(c@),
            Glance::Again(ms) => Glimpse::Again(ms),
            Glance::GiveUp(ms) => Glimpse::GiveUp(ms),
        }
    }
}

/// The indicator in a frame, where there is one and it is legible.
pub open spec fn legible_in(frame: Option<(Seq<u8>, int, int)>) -> Option<Mask> {
    match frame {
        None => None,
        Some((bytes, w, h)) => match cropped(bytes, w, h) {
            Some(m) if legible(m) => Some(m),
            _ => None,
        },
    }
}

/// What a grabbed frame leads to after so many misses, and how many there are
/// then.
pub open spec fn glimpsed(misses: nat, frame: Option<(Seq<u8>, int, int)>) -> (nat, Glimpse) {
    match legible_in(frame) {
        Some(m) => (misses, Glimpse::Seen(m)),
        None => if misses + 1 < LOOK_TRIES {
            (misses + 1, Glimpse::Again(LOOK_PAUSE_MS))
        } else {
            (misses, Glimpse::GiveUp(LOOK_PAUSE_MS))
        },
    }
}

impl Look {
    pub fn new() -> (l: Look)
        ensures
            l@ == 0,
    {
        Look { misses: 0 }
    }

    /// What a frame that was grabbed leads to; None where none could be.
    pub fn grabbed(&mut self, frame: Option<(&[u8], u32, u32)>) -> (g: Glance)
        ensures
            (final(self)@, g@) == glimpsed(
                old(self)@,
                match frame {
                    Some((bytes, w, h)) => Some((bytes@, w as int, h as int)),
                    None => None,
                },
            ),
            g matches Glance::Seen(c) ==> c@.valid(),
    {
        if let Some((bytes, w, h)) = frame {
            if let Some(c) = legible_crop(bytes, w, h) {
                return Glance::Seen(c);
            }
        }
        if self.misses < LOOK_TRIES - 1 {
            self.misses = self.misses + 1;
            Glance::Again(LOOK_PAUSE_MS)
        } else {
            Glance::GiveUp(LOOK_PAUSE_MS)
        }
    }
}

/// The indicator is looked for at most six times: each miss leaves fewer tries,
/// and a legible frame ends the looking whenever it comes.
pub proof fn law_looking_ends(misses: nat, frame: Option<(Seq<u8>, int, int)>)
    ensures
        glimpsed(misses, frame).1 is Again ==> misses < glimpsed(misses, frame).0 < LOOK_TRIES,
        legible_in(frame) is Some ==> glimpsed(misses, frame).1 is Seen,
{
}

/// A look within a quarter of its pixels of one recorded mode, and farther from
/// every other, is read as the case of that mode.
pub proof fn law_a_close_look_is_read_as_its_mode(r: Ring, i: int, m: Mask)
    requires
        0 <= i < r.modes.len(),
        distance(r.modes[i], m) * 4 <= m.ink.len(),
        forall|j: int|
            0 <= j < r.modes.len() && j != i ==> distance(#[trigger] r.modes[j], m) > distance(
                r.modes[i],
                m,
            ),
    ensures
        i == r.lower ==> reading(r, Some(m)) == Some(Case::Lower),
        i == r.upper && i != r.lower ==> reading(r, Some(m)) == Some(Case::Upper),
        i != r.upper && i != r.lower ==> reading(r, Some(m)) == Some(Case::Other),
{
    lemma_nearest(r.modes, m);
    let at = nearest(r.modes, m);
    assert(distance(r.modes[at], m) <= distance(r.modes[i], m));
}

/// A look is left unread exactly where there is none, or where it is farther
/// than a quarter of its pixels from every recorded mode.
pub proof fn law_only_a_far_look_is_unread(r: Ring, m: Mask)
    ensures
        reading(r, None) is None,
        reading(r, Some(m)) is None <==> forall|j: int|
            0 <= j < r.modes.len() ==> distance(#[trigger] r.modes[j], m) * 4 > m.ink.len(),
{
    if r.modes.len() > 0 {
        lemma_nearest(r.modes, m);
        let at = nearest(r.modes, m);
        assert(distance(r.modes[at], m) * 4 > m.ink.len() || reading(r, Some(m)) is Some);
    }
}

/// Of two recorded modes that are equally near, a look is read as the one that
/// comes first in the ring.
pub proof fn law_the_first_of_equals_is_read(r: Ring, i: int, m: Mask)
    requires
        0 <= i < r.modes.len(),
        distance(r.modes[i], m) * 4 <= m.ink.len(),
        forall|j: int|
            i < j < r.modes.len() ==> distance(#[trigger] r.modes[j], m) >= distance(
                r.modes[i],
                m,
            ),
        forall|j: int|
            0 <= j < i ==> distance(#[trigger] r.modes[j], m) > distance(r.modes[i], m),
    ensures
        reading(r, Some(m)) == Some(
            if i == r.lower {
                Case::Lower
            } else if i == r.upper {
                Case::Upper
            } else {
                Case::Other
            },
        ),
{
    lemma_nearest(r.modes, m);
    let at = nearest(r.modes, m);
    assert(distance(r.modes[at], m) <= distance(r.modes[i], m));
    assert(distance(r.modes[i], m) >= distance(r.modes[at], m));
}

/// A ring of two modes or more is calibrated exactly where one of them looks
/// lowercase; one without comes back as it was walked, and fewer than two modes
/// mean that nothing listened.
pub proof fn law_a_ring_with_lowercase_is_calibrated(ring: Seq<Mask>)
    ensures
        ring.len() < 2 ==> concluded(ring) is NoField,
        ring.len() >= 2 ==> (concluded(ring) is Ready <==> exists|j: int|
            0 <= j < ring.len() && looks_lowercase(#[trigger] ring[j])),
        ring.len() >= 2 && !(concluded(ring) is Ready) ==> (concluded(
            ring,
        ) matches Outcome::NoLowercase(r) && r.modes == ring),
{
    lemma_lowercase_from(ring, 0);
}

/// A look that differs from every mode of the walk in a fiftieth of its pixels
/// or more is a mode of its own: it joins the ring, and `#` is pressed.  The
/// walk goes on after eleven looks, and not after the twelfth.
pub proof fn law_a_look_unlike_all_is_a_new_mode(w: Walk, m: Mask)
    requires
        forall|i: int|
            0 <= i < w.ring.len() ==> distance(#[trigger] w.ring[i], m) * 50 >= m.ink.len(),
    ensures
        walked(w, Some(m)).0,
        w.looks < 11 ==> walked(w, Some(m)).1 == NextView::Look(
            (Walk { ring: w.ring.push(m), stale: 0, looks: w.looks + 1 }),
        ),
        w.looks >= 11 ==> walked(w, Some(m)).1 == NextView::Done(concluded(w.ring.push(m))),
{
    lemma_same_from(w.ring, m, 0);
    if let Some(k) = same_from(w.ring, m, 0) {
        assert(distance(w.ring[k], m) * 50 >= m.ink.len());
    }
}

/// One press in a row may change nothing: a look at the last mode again, by
/// less than a fiftieth of the pixels, leaves the ring as it is and presses
/// once more.  The second such look in a row ends the walk, unpressed.
pub proof fn law_a_wake_press_is_harmless(w: Walk, m: Mask)
    requires
        w.ring.len() > 0,
        distance(w.ring.last(), m) * 50 < m.ink.len(),
        forall|i: int|
            0 <= i < w.ring.len() - 1 ==> distance(#[trigger] w.ring[i], m) * 50 >= m.ink.len(),
    ensures
        w.stale == 0 && w.looks < 11 ==> walked(w, Some(m)) == (
            true,
            NextView::Look((Walk { ring: w.ring, stale: 1, looks: w.looks + 1 })),
        ),
        w.stale == 0 && w.looks >= 11 ==> walked(w, Some(m)) == (
            true,
            NextView::Done(concluded(w.ring)),
        ),
        w.stale > 0 ==> walked(w, Some(m)) == (false, NextView::Done(Outcome::NoField)),
{
    lemma_same_from(w.ring, m, 0);
    assert(same(w.ring[w.ring.len() - 1], m));
    if let Some(k) = same_from(w.ring, m, 0) {
        if k < w.ring.len() - 1 {
            assert(distance(w.ring[k], m) * 50 >= m.ink.len());
        }
    }
}

/// A look that is like a mode from before the last one ends the walk, with the
/// ring as it is and nothing pressed; a look that shows nothing ends it blind.
pub proof fn law_a_return_ends_the_walk(w: Walk, m: Mask, back: int)
    requires
        0 <= back < w.ring.len() - 1,
        distance(w.ring[back], m) * 50 < m.ink.len(),
    ensures
        walked(w, Some(m)) == (false, NextView::Done(concluded(w.ring))),
        walked(w, None) == (false, NextView::Done(Outcome::Blind)),
{
    lemma_same_from(w.ring, m, 0);
    assert(same(w.ring[back], m));
}

/// An indicator is shown exactly where from two to under fifty of every hundred
/// pixels hold ink.
pub proof fn law_how_much_ink_an_indicator_has(frame: Seq<u8>, w: int, h: int)
    ensures
        legible_in(None) is None,
        cropped(frame, w, h) is None ==> legible_in(Some((frame, w, h))) is None,
        cropped(frame, w, h) matches Some(m) ==> (legible_in(Some((frame, w, h))) == (if 2
            * m.ink.len() <= 100 * count(m.ink) && 100 * count(m.ink) < 50 * m.ink.len() {
            Some(m)
        } else {
            None::<Mask>
        })),
{
}

/// A frame that shows nothing is followed by another look 400 milliseconds
/// later, for the first five of them; the sixth gives up.
pub proof fn law_six_looks_are_taken(misses: nat, frame: Option<(Seq<u8>, int, int)>)
    requires
        legible_in(frame) is None,
    ensures
        misses < 5 ==> glimpsed(misses, frame) == (misses + 1, Glimpse::Again(400)),
        misses >= 5 ==> glimpsed(misses, frame).1 == Glimpse::GiveUp(400),
{
}

/// A frame that shows an indicator is seen as it is, however many looks were in
/// vain before.
pub proof fn law_what_is_shown_is_seen(misses: nat, frame: Option<(Seq<u8>, int, int)>, m: Mask)
    requires
        legible_in(frame) == Some(m),
    ensures
        glimpsed(misses, frame).1 == Glimpse::Seen(m),
{
}

/// What is printed of a ring shows the picture of every mode, behind the line
/// that numbers it.
pub proof fn law_every_mode_is_shown(r: Ring, i: int)
    requires
        0 <= i < r.modes.len(),
    ensures
        holds(ring_text(r), rendered(r.modes[i])),
        holds(ring_text(r), "-- ring["@ + decimal(i as nat) + "] glyphs="@),
{
    lemma_mode_is_shown(r.modes, i);
    let text = modes_text(r.modes);
    let head = "-- ring of "@ + decimal(r.modes.len()) + " modes; lower=ring["@ + decimal(
        r.lower as nat,
    ) + "] upper=ring["@ + decimal(r.upper as nat) + "]\n"@;
    assert(head + text + seq![] =~= ring_text(r));
    lemma_holds_within(head, text, seq![], rendered(r.modes[i]));
    lemma_holds_within(head, text, seq![], "-- ring["@ + decimal(i as nat) + "] glyphs="@);
}

proof fn lemma_mode_is_shown(modes: Seq<Mask>, i: int)
    requires
        0 <= i < modes.len(),
    ensures
        holds(modes_text(modes), rendered(modes[i])),
        holds(modes_text(modes), "-- ring["@ + decimal(i as nat) + "] glyphs="@),
    decreases modes.len(),
{
    let short = modes.drop_last();
    let m = modes.last();
    let picture = rendered(modes[i]);
    let mark = "-- ring["@ + decimal(i as nat) + "] glyphs="@;
    let last = mode_text(m, modes.len() - 1);
    if i < short.len() {
        lemma_mode_is_shown(short, i);
        assert(seq![] + modes_text(short) + last =~= modes_text(modes));
        lemma_holds_within(seq![], modes_text(short), last, picture);
        lemma_holds_within(seq![], modes_text(short), last, mark);
    } else {
        let middle = decimal(glyphs(m).len()) + " tops=["@ + joined(tops_of(m), ", "@)
            + "] lower="@ + (if looks_lowercase(m) {
            "true"@
        } else {
            "false"@
        }) + "\n"@;
        assert(last =~= mark + (middle + picture));
        lemma_holds_itself(picture);
        lemma_holds_itself(mark);
        let before = modes_text(short);
        assert(before + mark + (middle + picture) =~= modes_text(modes));
        assert((before + mark + middle) + picture + seq![] =~= modes_text(modes));
        lemma_holds_within(before, mark, middle + picture, mark);
        lemma_holds_within(before + mark + middle, picture, seq![], picture);
    }
}

} // verus!
