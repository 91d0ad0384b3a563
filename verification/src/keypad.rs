//! A model of the keypad on the other end, and the proof that typing lands.
//!
//! The model shares the character tables with the planner, so it says nothing
//! of a table that is wrong about the phone.  What it does not let the planner
//! assume:
//!
//! * the commit timeout, which phones do not agree on;
//! * the shortest gap between taps, below which the input method drops them;
//! * a mode switch as time rather than as a free assertion: it may be so quick
//!   that it leaves a character mid-cycle;
//! * the input method putting itself back into sentence case after `.`, `!`
//!   or `?`.
//!
//! What is proved holds of every phone whose timing leaves the planner's waits
//! any room, and so of the two that were measured.
use vstd::prelude::*;
use crate::imemode::Case;
use crate::multitap::{
    asks, case_of, cycle, ends_sentence, fresh, home, lead_in, lemma_home, planned, settling,
    taps_of, typeable, StepView, Taps, ADVANCE_MS, TAP_MS,
};
use crate::text::{is_letter, upper};

verus! {

/// Taps of one key inside this window advance the same character; anything
/// longer commits it.  This is the slower of the two phones measured.
pub const DEVICE_TIMEOUT_MS: u64 = 1700;

/// Taps of one key closer together than this are dropped.
pub const DEVICE_MIN_TAP_MS: u64 = 120;

/// How long a key is held down, which is time between one press and the next.
pub const DEVICE_HOLD_MS: u64 = 50;

/// The fastest a mode switch can be: one look that finds the phone already in
/// the case asked for.
pub const DEVICE_MODE_MS: u64 = 1000;

/// The timing of a phone, in milliseconds.
pub struct Device {
    /// Taps of one key inside this window advance the same character.
    pub timeout: int,
    /// Taps of one key closer together than this are dropped.
    pub min_tap: int,
    /// How long a key is held down.
    pub hold: int,
    /// How long a mode switch takes.
    pub mode: int,
}

impl Device {
    /// The gap between taps is neither too short to be noticed nor so long that
    /// it commits the character, and the wait between characters commits it.
    pub open spec fn suits(self) -> bool {
        &&& 0 <= self.hold
        &&& 0 <= self.mode
        &&& self.min_tap <= self.hold + TAP_MS < self.timeout
        &&& self.timeout <= self.hold + ADVANCE_MS
    }
}

/// The phone whose timing was measured as the slower one, at its fastest
/// switch.
pub open spec fn measured() -> Device {
    Device {
        timeout: DEVICE_TIMEOUT_MS as int,
        min_tap: DEVICE_MIN_TAP_MS as int,
        hold: DEVICE_HOLD_MS as int,
        mode: DEVICE_MODE_MS as int,
    }
}

/// The phone's side of the typing.
pub struct Pad {
    /// Whether letters come out as capitals.
    pub upper: bool,
    /// What the field holds.
    pub out: Seq<char>,
    /// The key being tapped, and where in its cycle it stands.
    pub pending: Option<(Seq<char>, int)>,
    /// Milliseconds since the last tap.
    pub since_tap: int,
    /// Whether a tap came too soon and was lost.
    pub dropped: bool,
}

/// A keypad with an empty field and nothing being tapped, in either case.
pub open spec fn idle(upper: bool) -> Pad {
    Pad { upper, out: seq![], pending: None, since_tap: u64::MAX as int, dropped: false }
}

/// The character that is being tapped, as it will land.
pub open spec fn landing(p: Pad) -> char {
    let (key, i) = p.pending->0;
    let ch = cycle(key)->0[i];
    if p.upper {
        upper(ch)
    } else {
        ch
    }
}

/// The character being tapped goes into the field, and a sentence end puts the
/// input method into sentence case.
pub open spec fn commit(p: Pad) -> Pad {
    match p.pending {
        None => p,
        Some((key, i)) => Pad {
            out: p.out.push(landing(p)),
            upper: p.upper || ends_sentence(cycle(key)->0[i]),
            pending: None,
            ..p
        },
    }
}

/// Time passes.
pub open spec fn pass(d: Device, p: Pad, ms: int) -> Pad {
    let later = Pad { since_tap: p.since_tap + ms, ..p };
    if later.since_tap >= d.timeout {
        commit(later)
    } else {
        later
    }
}

/// One press of a key that types.
pub open spec fn tap(d: Device, p: Pad, key: Seq<char>) -> Pad {
    match p.pending {
        Some((k, i)) if k == key && p.since_tap < d.min_tap => Pad {
            dropped: true,
            since_tap: d.hold,
            ..p
        },
        Some((k, i)) if k == key && p.since_tap < d.timeout => Pad {
            pending: Some((k, (i + 1) % (cycle(k)->0.len() as int))),
            since_tap: d.hold,
            ..p
        },
        _ => Pad { pending: Some((key, 0)), since_tap: d.hold, ..commit(p) },
    }
}

/// What one step does to the keypad.
pub open spec fn step(d: Device, p: Pad, s: StepView) -> Pad {
    match s {
        StepView::Wait(ms) => pass(d, p, ms as int),
        StepView::Mode(case) => Pad {
            upper: case == Case::Upper,
            ..pass(d, p, d.mode)
        },
        StepView::Key(key) => if key == "OK"@ {
            let q = commit(p);
            Pad { out: q.out.push('\n'), since_tap: u64::MAX as int, ..q }
        } else {
            tap(d, p, key)
        },
    }
}

pub open spec fn run(d: Device, p: Pad, steps: Seq<StepView>) -> Pad
    decreases steps.len(),
{
    if steps.len() == 0 {
        p
    } else {
        step(d, run(d, p, steps.drop_last()), steps.last())
    }
}

/// What the field holds once nothing is being tapped any more.
pub open spec fn finish(p: Pad) -> Seq<char> {
    commit(p).out
}

/// The steps for a whole text, one character planned after the other, and the
/// planner's state after them.
pub open spec fn planned_text(t: Taps, text: Seq<char>) -> (Taps, Seq<StepView>)
    recommends
        all_typeable(text),
    decreases text.len(),
{
    if text.len() == 0 {
        (t, seq![])
    } else {
        let (t1, before) = planned_text(t, text.drop_last());
        let (t2, these) = planned(t1, text.last())->0;
        (t2, before + these)
    }
}

pub open spec fn all_typeable(text: Seq<char>) -> bool {
    forall|i: int| 0 <= i < text.len() ==> typeable(#[trigger] text[i])
}

/// How a text lands: as it is, with either line break as the phone's own.
pub open spec fn landed(text: Seq<char>) -> Seq<char> {
    Seq::new(
        text.len(),
        |i: int|
            if text[i] == '\r' {
                '\n'
            } else {
                text[i]
            },
    )
}

/// The planner and the keypad agree: the field, with the character still being
/// tapped, holds `text`; the planner knows which key that character is on; and
/// the case it believes in is the one the phone is in.
pub open spec fn in_step(d: Device, t: Taps, p: Pad, text: Seq<char>) -> bool {
    &&& !p.dropped
    &&& match t.last {
        None => p.pending is None && p.out == landed(text),
        Some(k) => {
            &&& p.pending matches Some((key, i))
            &&& key == k
            &&& p.since_tap >= d.hold
            &&& cycle(key) matches Some(cyc)
            &&& 0 <= i < cyc.len()
            &&& p.out.push(landing(p)) == landed(text)
            &&& ends_sentence(cyc[i]) ==> t.resets_next
        },
    }
    &&& !t.resets_next ==> match t.asked {
        Some(case) => p.upper == (case == Case::Upper),
        None => true,
    }
}

proof fn lemma_run_concat(d: Device, p: Pad, a: Seq<StepView>, b: Seq<StepView>)
    ensures
        run(d, p, a + b) == run(d, run(d, p, a), b),
    decreases b.len(),
{
    if b.len() == 0 {
        assert(a + b =~= a);
    } else {
        lemma_run_concat(d, p, a, b.drop_last());
        assert((a + b).drop_last() =~= a + b.drop_last());
    }
}

proof fn lemma_run_one(d: Device, p: Pad, s: StepView)
    ensures
        run(d, p, seq![s]) == step(d, p, s),
{
    assert(seq![s].drop_last() =~= Seq::<StepView>::empty());
    assert(run(d, p, seq![s].drop_last()) == p);
}

/// Taps of a key that is not the one being tapped start a new character and
/// walk it to its place in the cycle, with none of them dropped.
proof fn lemma_taps(d: Device, p: Pad, key: Seq<char>, taps: int)
    requires
        d.suits(),
        key != "OK"@,
        cycle(key) is Some,
        1 <= taps <= cycle(key)->0.len(),
        p.pending matches Some((k, i)) ==> k != key,
    ensures
        run(d, p, taps_of(key, taps)) == (Pad {
            pending: Some((key, taps - 1)),
            since_tap: d.hold,
            ..commit(p)
        }),
    decreases taps,
{
    if taps == 1 {
        lemma_run_one(d, p, StepView::Key(key));
    } else {
        lemma_taps(d, p, key, taps - 1);
        let wait = StepView::Wait(TAP_MS);
        let press = StepView::Key(key);
        lemma_run_concat(d, p, taps_of(key, taps - 1), seq![wait, press]);
        assert(seq![wait, press] =~= seq![wait] + seq![press]);
        let q = run(d, p, taps_of(key, taps - 1));
        lemma_run_concat(d, q, seq![wait], seq![press]);
        lemma_run_one(d, q, wait);
        lemma_run_one(d, run(d, q, seq![wait]), press);
        let n = cycle(key)->0.len() as int;
        assert((taps - 1) % n == taps - 1) by (nonlinear_arith)
            requires
                0 <= taps - 1 < n,
        ;
    }
}

/// Planning one more character and pressing its keys keeps the planner and the
/// keypad in step, and the field gains that character.
pub proof fn law_a_planned_character_lands(d: Device, t: Taps, p: Pad, text: Seq<char>, ch: char)
    requires
        d.suits(),
        in_step(d, t, p, text),
        typeable(ch),
    ensures
        planned(t, ch) matches Some((t2, steps)) && in_step(d, t2, run(d, p, steps), text.push(ch)),
{
    reveal_strlit("OK");
    lemma_home(ch);
    if ch == '\n' || ch == '\r' {
        lemma_run_one(d, p, StepView::Key("OK"@));
        let q = run(d, p, seq![StepView::Key("OK"@)]);
        assert(q.out =~= landed(text.push(ch)));
    } else {
        let (key, taps) = home(ch)->0;
        let lead = lead_in(t, ch, key);
        let wait = StepView::Wait(ADVANCE_MS);
        let mode = StepView::Mode(case_of(ch));
        lemma_run_concat(d, p, lead, taps_of(key, taps));
        lemma_run_one(d, p, wait);
        lemma_run_one(d, p, mode);
        lemma_run_concat(d, p, seq![wait], seq![mode]);
        lemma_run_one(d, run(d, p, seq![wait]), mode);
        assert(seq![] + seq![mode] =~= seq![mode]);
        let q = run(d, p, lead);
        assert(run(d, p, seq![]) == p);
        lemma_taps(d, q, key, taps);
        let r = run(d, q, taps_of(key, taps));
        assert(commit(q).out =~= landed(text));
        assert(r.out.push(landing(r)) =~= landed(text.push(ch)));
    }
}

/// Settling keeps the field as it is, and leaves nothing being tapped.
pub proof fn law_settling_keeps_the_text(d: Device, t: Taps, p: Pad, text: Seq<char>)
    requires
        d.suits(),
        in_step(d, t, p, text),
    ensures
        in_step(d, fresh(), run(d, p, settling(t)), text),
        run(d, p, settling(t)).pending is None,
{
    lemma_run_one(d, p, StepView::Wait(ADVANCE_MS));
    assert(run(d, p, seq![]) == p);
}

/// A text planned from a state that agrees with the keypad lands in the field
/// after what was there.
pub proof fn law_a_planned_text_lands(d: Device, t: Taps, p: Pad, before: Seq<char>, text: Seq<char>)
    requires
        d.suits(),
        in_step(d, t, p, before),
        all_typeable(text),
    ensures
        in_step(d, planned_text(t, text).0, run(d, p, planned_text(t, text).1), before + text),
    decreases text.len(),
{
    if text.len() == 0 {
        assert(before + text =~= before);
    } else {
        let short = text.drop_last();
        law_a_planned_text_lands(d, t, p, before, short);
        let (t1, steps) = planned_text(t, short);
        assert(typeable(text[text.len() - 1]));
        law_a_planned_character_lands(d, t1, run(d, p, steps), before + short, text.last());
        let (_t2, these) = planned(t1, text.last())->0;
        lemma_run_concat(d, p, steps, these);
        assert((before + short).push(text.last()) =~= before + text);
    }
}

/// The round trip: whatever text the keypad can type, its plan typed on a fresh
/// keypad in either case, and then settled, leaves exactly that text in the
/// field, and no tap is dropped on the way.  That holds of every phone whose
/// timing suits, however quick or slow its mode switch is.
pub proof fn law_typing_round_trip(d: Device, text: Seq<char>, upper: bool)
    requires
        d.suits(),
        all_typeable(text),
    ensures
        ({
            let (t, steps) = planned_text(fresh(), text);
            let end = run(d, idle(upper), steps + settling(t));
            !end.dropped && end.out == landed(text) && finish(end) == landed(text)
        }),
{
    assert(landed(seq![]) =~= seq![]);
    law_a_planned_text_lands(d, fresh(), idle(upper), seq![], text);
    let (t, steps) = planned_text(fresh(), text);
    assert(seq![] + text =~= text);
    law_settling_keeps_the_text(d, t, run(d, idle(upper), steps), text);
    lemma_run_concat(d, idle(upper), steps, settling(t));
}

/// The slower phone that was measured suits, and so does the quicker one, which
/// merges two taps at 900 ms and commits at 1200.
pub proof fn law_the_measured_phones_suit(timeout: int, mode: int)
    requires
        900 < timeout <= 1200,
        0 <= mode,
    ensures
        measured().suits(),
        (Device { timeout, mode, ..measured() }).suits(),
{
}

/// Text typed on either side of a settling lands whole, both halves.
pub proof fn law_typing_either_side_of_settling(
    d: Device,
    first: Seq<char>,
    second: Seq<char>,
    upper: bool,
)
    requires
        d.suits(),
        all_typeable(first),
        all_typeable(second),
    ensures
        ({
            let (t1, steps1) = planned_text(fresh(), first);
            let (t2, steps2) = planned_text(fresh(), second);
            let end = run(d, idle(upper), steps1 + settling(t1) + steps2 + settling(t2));
            !end.dropped && finish(end) == landed(first + second)
        }),
{
    assert(landed(seq![]) =~= seq![]);
    let p = idle(upper);
    let (t1, steps1) = planned_text(fresh(), first);
    let (t2, steps2) = planned_text(fresh(), second);
    law_a_planned_text_lands(d, fresh(), p, seq![], first);
    assert(seq![] + first =~= first);
    law_settling_keeps_the_text(d, t1, run(d, p, steps1), first);
    lemma_run_concat(d, p, steps1, settling(t1));
    let q = run(d, p, steps1 + settling(t1));
    law_a_planned_text_lands(d, fresh(), q, first, second);
    lemma_run_concat(d, p, steps1 + settling(t1), steps2);
    law_settling_keeps_the_text(d, t2, run(d, q, steps2), first + second);
    lemma_run_concat(d, p, steps1 + settling(t1) + steps2, settling(t2));
}

/// How many times the steps ask for a case.
pub open spec fn requests(steps: Seq<StepView>) -> nat
    decreases steps.len(),
{
    if steps.len() == 0 {
        0
    } else if steps.last() is Mode {
        requests(steps.drop_last()) + 1
    } else {
        requests(steps.drop_last())
    }
}

proof fn lemma_requests_concat(a: Seq<StepView>, b: Seq<StepView>)
    ensures
        requests(a + b) == requests(a) + requests(b),
    decreases b.len(),
{
    if b.len() == 0 {
        assert(a + b =~= a);
    } else {
        lemma_requests_concat(a, b.drop_last());
        assert((a + b).drop_last() =~= a + b.drop_last());
    }
}

proof fn lemma_requests_one(s: StepView)
    ensures
        requests(seq![s]) == if s is Mode {
            1nat
        } else {
            0nat
        },
{
    assert(seq![s].drop_last() =~= Seq::<StepView>::empty());
    assert(requests(seq![s].drop_last()) == 0);
}

proof fn lemma_taps_request_nothing(key: Seq<char>, taps: int)
    ensures
        requests(taps_of(key, taps)) == 0,
    decreases taps,
{
    if taps == 1 {
        lemma_requests_one(StepView::Key(key));
    } else if taps > 1 {
        let wait = StepView::Wait(TAP_MS);
        let press = StepView::Key(key);
        lemma_taps_request_nothing(key, taps - 1);
        lemma_requests_concat(taps_of(key, taps - 1), seq![wait, press]);
        assert(seq![wait, press] =~= seq![wait] + seq![press]);
        lemma_requests_concat(seq![wait], seq![press]);
        lemma_requests_one(wait);
        lemma_requests_one(press);
    }
}

/// A character asks for a case at most once, and only where it has to: digits,
/// spaces, punctuation and line breaks never do.
pub proof fn law_a_character_asks_at_most_once(t: Taps, ch: char)
    requires
        typeable(ch),
    ensures
        planned(t, ch) matches Some((t2, steps)) && requests(steps) == (if asks(t, ch) {
            1nat
        } else {
            0nat
        }),
        !is_letter(ch) ==> !asks(t, ch),
{
    lemma_requests_one(StepView::Key("OK"@));
    if ch != '\n' && ch != '\r' {
        let (key, taps) = home(ch)->0;
        let wait = StepView::Wait(ADVANCE_MS);
        let mode = StepView::Mode(case_of(ch));
        lemma_requests_concat(lead_in(t, ch, key), taps_of(key, taps));
        lemma_taps_request_nothing(key, taps);
        lemma_requests_concat(seq![wait], seq![mode]);
        assert(seq![] + seq![mode] =~= seq![mode]);
        lemma_requests_one(wait);
        lemma_requests_one(mode);
    }
}

/// Every letter of the text is in this case, and no sentence ends in it.
pub open spec fn one_case(text: Seq<char>, case: Case) -> bool {
    forall|i: int|
        0 <= i < text.len() ==> !ends_sentence(#[trigger] text[i]) && (is_letter(text[i])
            ==> case_of(text[i]) == case)
}

pub open spec fn has_letter(text: Seq<char>) -> bool {
    exists|i: int| 0 <= i < text.len() && is_letter(#[trigger] text[i])
}

proof fn lemma_one_case(text: Seq<char>, case: Case)
    requires
        all_typeable(text),
        one_case(text, case),
    ensures
        ({
            let (t, steps) = planned_text(fresh(), text);
            &&& !t.resets_next
            &&& has_letter(text) ==> t.asked == Some(case) && requests(steps) == 1
            &&& !has_letter(text) ==> t.asked is None && requests(steps) == 0
        }),
    decreases text.len(),
{
    if text.len() > 0 {
        let short = text.drop_last();
        let ch = text.last();
        assert(ch == text[text.len() - 1]);
        assert forall|i: int| 0 <= i < short.len() implies short[i] == text[i] by {}
        lemma_one_case(short, case);
        let (t1, steps) = planned_text(fresh(), short);
        law_a_character_asks_at_most_once(t1, ch);
        let (_t2, these) = planned(t1, ch)->0;
        lemma_requests_concat(steps, these);
        if has_letter(short) {
            let i = choose|i: int| 0 <= i < short.len() && is_letter(#[trigger] short[i]);
            assert(is_letter(text[i]));
        }
    }
}

/// A run of one case asks for it once, however long it is.
pub proof fn law_a_run_of_one_case_asks_once(text: Seq<char>, case: Case)
    requires
        all_typeable(text),
        one_case(text, case),
    ensures
        requests(planned_text(fresh(), text).1) == (if has_letter(text) {
            1nat
        } else {
            0nat
        }),
{
    lemma_one_case(text, case);
}

proof fn lemma_case_carries(before: Seq<char>, between: Seq<char>)
    requires
        all_typeable(before + between),
        forall|i: int| 0 <= i < between.len() ==> !is_letter(#[trigger] between[i]),
    ensures
        ({
            let t = planned_text(fresh(), before).0;
            let after = planned_text(fresh(), before + between).0;
            &&& after.asked == t.asked
            &&& after.resets_next == (t.resets_next || exists|i: int|
                0 <= i < between.len() && (#[trigger] between[i] == '.' || between[i] == '!'
                    || between[i] == '?'))
        }),
    decreases between.len(),
{
    if between.len() == 0 {
        assert(before + between =~= before);
    } else {
        let short = between.drop_last();
        let all = before + between;
        assert(all.drop_last() =~= before + short);
        assert forall|i: int| 0 <= i < (before + short).len() implies typeable(
            #[trigger] (before + short)[i],
        ) by {
            assert(all[i] == (before + short)[i]);
        }
        assert forall|i: int| 0 <= i < short.len() implies !is_letter(#[trigger] short[i]) by {
            assert(short[i] == between[i]);
        }
        lemma_case_carries(before, short);
        let ch = between.last();
        assert(all.last() == ch);
        assert(typeable(all[all.len() - 1]));
        assert(!is_letter(between[between.len() - 1]));
        let t = planned_text(fresh(), before).0;
        let t1 = planned_text(fresh(), before + short).0;
        let now = ch == '.' || ch == '!' || ch == '?';
        let ended = exists|i: int|
            0 <= i < between.len() && (#[trigger] between[i] == '.' || between[i] == '!'
                || between[i] == '?');
        let earlier = exists|i: int|
            0 <= i < short.len() && (#[trigger] short[i] == '.' || short[i] == '!' || short[i]
                == '?');
        if earlier {
            let i = choose|i: int|
                0 <= i < short.len() && (#[trigger] short[i] == '.' || short[i] == '!' || short[i]
                    == '?');
            assert(between[i] == short[i]);
        }
        if now {
            assert(between[between.len() - 1] == ch);
        }
        if ended {
            let i = choose|i: int|
                0 <= i < between.len() && (#[trigger] between[i] == '.' || between[i] == '!'
                    || between[i] == '?');
            if i < short.len() {
                assert(short[i] == between[i]);
            }
        }
        assert(ended == (earlier || now));
    }
}

/// A letter asks for its case where the letter before it was of the other one,
/// and where a full stop, an exclamation mark or a question mark came between;
/// and nowhere else.
pub proof fn law_a_case_is_asked_for_where_it_changes(
    before: Seq<char>,
    a: char,
    between: Seq<char>,
    ch: char,
)
    requires
        all_typeable(before.push(a) + between),
        is_letter(a),
        is_letter(ch),
        typeable(ch),
        forall|i: int| 0 <= i < between.len() ==> !is_letter(#[trigger] between[i]),
    ensures
        ({
            let t = planned_text(fresh(), before.push(a) + between).0;
            let (_t2, steps) = planned(t, ch)->0;
            requests(steps) == (if ('a' <= a <= 'z') != ('a' <= ch <= 'z') || exists|i: int|
                0 <= i < between.len() && (#[trigger] between[i] == '.' || between[i] == '!'
                    || between[i] == '?') {
                1nat
            } else {
                0nat
            })
        }),
{
    let first = before.push(a);
    lemma_case_carries(first, between);
    assert(first.drop_last() =~= before);
    assert(typeable((first + between)[before.len() as int]));
    let t = planned_text(fresh(), first + between).0;
    law_a_character_asks_at_most_once(t, ch);
}

/// The first letter of a text asks for its case.
pub proof fn law_the_first_letter_asks(before: Seq<char>, ch: char)
    requires
        all_typeable(before),
        forall|i: int| 0 <= i < before.len() ==> !is_letter(#[trigger] before[i]),
        is_letter(ch),
        typeable(ch),
    ensures
        ({
            let t = planned_text(fresh(), before).0;
            requests((planned(t, ch)->0).1) == 1
        }),
{
    assert(seq![] + before =~= before);
    lemma_case_carries(seq![], before);
    law_a_character_asks_at_most_once(planned_text(fresh(), before).0, ch);
}

} // verus!
