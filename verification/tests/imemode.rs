//! Reading the input mode off a frame, and reaching a case by it.
use kaimirror::controller::{case_to_try, Controller, Reach, ReachError, ReachNext};
use kaimirror::crop::{crop, Crop};
use kaimirror::imemode::{
    legible_crop, CalibrateError, Case, Glance, Indicator, Look, Next, RingWalk, NO_FIELD,
};
use kaimirror::multitap::{Step, ADVANCE_MS};

const W: u32 = 240;
const H: u32 = 320;

/// A frame whose indicator shows these rows, `#` for text, at the left of the
/// box and from its top; light text on a dark bar, or the other way round.
fn frame(rows: &[&str], light: bool) -> Vec<u8> {
    let (text, bar) = if light { (0xffffu16, 0x0000u16) } else { (0x0000, 0xffff) };
    let mut px = vec![bar; (W * H) as usize];
    for (y, row) in rows.iter().enumerate() {
        for (x, c) in row.chars().enumerate() {
            if c == '#' {
                px[y * W as usize + 26 + x] = text;
            }
        }
    }
    px.iter().flat_map(|p| p.to_le_bytes()).collect()
}

fn shown(rows: &[&str]) -> Crop {
    crop(&frame(rows, true), W, H).expect("an indicator")
}

const LOWER: [&str; 8] = [
    "........##.",
    "........##.",
    "........##.",
    "####....####",
    "####....####",
    "####....####",
    "####....####",
    "####....####",
];
const UPPER: [&str; 8] = [
    "####....####",
    "####....####",
    "####....####",
    "####....####",
    "####....####",
    "####....####",
    "####....####",
    "####....####",
];
const SENTENCE: [&str; 8] = [
    "####....##..",
    "####....##..",
    "####....##..",
    "####....##..",
    "####....##..",
    "####....####",
    "####....####",
    "####....####",
];
const DIGITS: [&str; 8] = [
    "#####.#####",
    "....#.....#",
    "....#.....#",
    "#####.#####",
    "#.........#",
    "#.........#",
    "#.........#",
    "#####.#####",
];

#[test]
fn the_box_is_cut_out_in_either_polarity() {
    let a = crop(&frame(&LOWER, true), W, H).unwrap();
    let b = crop(&frame(&LOWER, false), W, H).unwrap();
    assert_eq!(a.render(), b.render());
    assert_eq!(a.pixels(), 17 * 20);
    assert_eq!(a.inked_pixels(), 5 * 8 + 3 * 2);
    assert!(a.render().starts_with("........##.......\n........##.......\n"));
    assert!(a.at(0, 3) && !a.at(4, 3) && a.at(8, 0));
    assert_eq!(a.glyphs(), [(0, 4), (8, 12)]);
    assert_eq!(a.top_of((0, 4)), Some(3));
    assert_eq!(a.top_of((8, 12)), Some(0));
    assert_eq!(a.top_of((4, 8)), None);
    assert!(a.looks_lowercase());
}

#[test]
fn a_frame_without_text_in_the_box_has_no_indicator() {
    // Flat, too short, or of a panel that the box does not fit.
    assert!(crop(&frame(&[], true), W, H).is_none());
    let f = frame(&LOWER, true);
    assert!(crop(&f[..f.len() - 1], W, H).is_none());
    assert!(crop(&f, W, 19).is_none());
    assert!(crop(&[], 0, 0).is_none());
    assert!(crop(&[0; 2 * 11 * 11], 11, 11).is_none());
    assert!(crop(&f, u32::MAX, u32::MAX).is_none());
    // Contrast just under what text has.
    let mut px = vec![0u16; (W * H) as usize];
    px[30] = 0x39e7;
    let dim: Vec<u8> = px.iter().flat_map(|p| p.to_le_bytes()).collect();
    assert!(crop(&dim, W, H).is_none());
}

#[test]
fn a_box_scales_with_the_panel() {
    // Twice the panel, every pixel doubled: the mask is doubled too.
    let small = frame(&LOWER, true);
    let mut big = vec![0u8; small.len() * 4];
    for y in 0..2 * H as usize {
        for x in 0..2 * W as usize {
            let from = ((y / 2) * W as usize + x / 2) * 2;
            let to = (y * 2 * W as usize + x) * 2;
            big[to] = small[from];
            big[to + 1] = small[from + 1];
        }
    }
    let c = crop(&big, 2 * W, 2 * H).unwrap();
    assert_eq!(c.pixels(), 34 * 40);
    assert_eq!(c.glyphs(), [(0, 8), (16, 24)]);
    assert!(c.looks_lowercase());
}

#[test]
fn only_lowercase_looks_lowercase() {
    assert!(!shown(&UPPER).looks_lowercase());
    assert!(!shown(&SENTENCE).looks_lowercase());
    assert!(!shown(&DIGITS).looks_lowercase());
    // A gap of one column is inside a glyph, and one glyph is not two.
    assert_eq!(shown(&["#.#", "#.#"]).glyphs(), [(0, 3)]);
    assert_eq!(shown(&["#..#", "#..#"]).glyphs(), [(0, 1), (3, 4)]);
    assert!(!shown(&["....", "....", "#.#."]).looks_lowercase());
    // One row lower is not clearly lower.
    assert!(!shown(&["...##", "##.##", "##.##", "##...##"]).looks_lowercase());
}

#[test]
fn a_banner_is_not_legible() {
    let block = vec!["#################"; 10];
    assert!(legible_crop(&frame(&block, true), W, H).is_none());
    assert!(legible_crop(&frame(&["#"], true), W, H).is_none());
    assert!(legible_crop(&frame(&LOWER, true), W, H).is_some());
    // Exactly a fiftieth is enough: 7 of 340 pixels is over it, 6 is not.
    assert!(legible_crop(&frame(&["#######"], true), W, H).is_some());
    assert!(legible_crop(&frame(&["######"], true), W, H).is_none());
}

#[test]
fn how_far_two_crops_are_apart() {
    let (a, b) = (shown(&LOWER), shown(&UPPER));
    assert_eq!(a.distance(&a), 0);
    assert_eq!(a.distance(&b), 4 * 3 + 3 * 2);
    assert_eq!(b.distance(&a), a.distance(&b));
}

/// A phone with a ring of modes, of which presses may be lost.
struct Phone {
    ring: Vec<&'static [&'static str]>,
    at: usize,
    lost: usize,
    presses: usize,
}

impl Phone {
    fn new(at: usize, lost: usize) -> Phone {
        Phone { ring: vec![&SENTENCE, &LOWER, &UPPER, &DIGITS], at, lost, presses: 0 }
    }

    fn look(&self) -> Option<Crop> {
        legible_crop(&frame(self.ring[self.at], true), W, H)
    }

    fn press(&mut self) {
        self.presses += 1;
        if self.lost > 0 {
            self.lost -= 1;
        } else {
            self.at = (self.at + 1) % self.ring.len();
        }
    }
}

fn calibrate(phone: &mut Phone) -> Result<Indicator, CalibrateError> {
    let mut walk = RingWalk::new();
    loop {
        let (press, next) = Indicator::calibrate(walk, phone.look());
        if press {
            phone.press();
        }
        match next {
            Next::Look(w) => walk = w,
            Next::Done(r) => return r,
        }
    }
}

#[test]
fn a_ring_is_walked_once_around() {
    for start in 0..4 {
        for lost in 0..2 {
            let mut phone = Phone::new(start, lost);
            let ind = calibrate(&mut phone).ok().expect("a ring");
            assert_eq!(ind.modes(), 4);
            assert_eq!(phone.presses, 4 + lost);
            for (mode, case) in [
                (&SENTENCE, Case::Other),
                (&LOWER, Case::Lower),
                (&UPPER, Case::Upper),
                (&DIGITS, Case::Other),
            ] {
                assert_eq!(ind.read(Some(&shown(mode))), Some(case));
            }
            assert_eq!(ind.read(None), None);
            // Too far from every mode that is known.
            assert_eq!(ind.read(Some(&shown(&["..........#######"; 20]))), None);
        }
    }
}

/// A walk over these looks, one after the other: the ring, and the presses.
fn walk_over(looks: &[&[&str]]) -> (Result<Indicator, CalibrateError>, usize) {
    let mut walk = RingWalk::new();
    let mut presses = 0;
    for rows in looks {
        let (press, next) = Indicator::calibrate(walk, Some(shown(rows)));
        presses += press as usize;
        match next {
            Next::Look(w) => walk = w,
            Next::Done(r) => return (r, presses),
        }
    }
    panic!("the walk goes on");
}

/// The first switch leaves the state that the phone starts in, and nothing
/// returns to it.
#[test]
fn a_start_state_is_left_behind() {
    let (r, presses) = walk_over(&[&SENTENCE, &LOWER, &UPPER, &DIGITS, &LOWER, &UPPER, &DIGITS]);
    let ind = r.ok().expect("a ring");
    assert_eq!((ind.modes(), presses), (4, 4));
    assert_eq!(ind.read(Some(&shown(&LOWER))), Some(Case::Lower));
    assert_eq!(ind.read(Some(&shown(&UPPER))), Some(Case::Upper));
    assert_eq!(ind.read(Some(&shown(&SENTENCE))), Some(Case::Other));

    // A press that changes nothing is no return.
    let (r, presses) = walk_over(&[&SENTENCE, &LOWER, &LOWER, &UPPER, &LOWER]);
    assert_eq!((r.ok().expect("a ring").modes(), presses), (3, 4));
    let (r, presses) = walk_over(&[&SENTENCE, &LOWER, &LOWER, &LOWER]);
    assert_eq!((r.err().expect("no field").message(), presses), (NO_FIELD, 3));
}

#[test]
fn the_indicator_is_looked_for_six_times() {
    let good = frame(&LOWER, true);
    let blank = frame(&[], true);
    let mut look = Look::new();
    for _ in 0..5 {
        assert!(matches!(look.grabbed(Some((&blank, W, H))), Glance::Again(400)));
    }
    assert!(matches!(look.grabbed(None), Glance::GiveUp(400)));
    let mut look = Look::new();
    assert!(matches!(look.grabbed(None), Glance::Again(400)));
    match look.grabbed(Some((&good, W, H))) {
        Glance::Seen(c) => assert!(c.looks_lowercase()),
        _ => panic!("an indicator"),
    }
}

#[test]
fn both_cases_are_tried_until_one_fails() {
    assert_eq!(case_to_try(0, false), Some(Case::Lower));
    assert_eq!(case_to_try(1, false), Some(Case::Upper));
    assert_eq!(case_to_try(2, false), None);
    assert_eq!(case_to_try(0, true), None);
    assert_eq!(case_to_try(1, true), None);
}

#[test]
fn a_dead_key_is_pressed_no_more_than_twice() {
    let mut phone = Phone::new(0, 1000);
    let e = calibrate(&mut phone).err().expect("no field");
    assert_eq!(e.message(), NO_FIELD);
    assert_eq!(phone.presses, 2);
}

#[test]
fn a_ring_without_lowercase_is_refused() {
    let mut phone = Phone::new(0, 0);
    phone.ring = vec![&SENTENCE, &UPPER, &DIGITS];
    let e = calibrate(&mut phone).err().expect("no lowercase");
    assert_eq!(e.message(), "no lowercase mode found in the input-mode cycle");
    match e {
        CalibrateError::NoLowercase(ring) => assert_eq!(ring.modes(), 3),
        _ => panic!("the ring is kept"),
    }
    let (press, next) = Indicator::calibrate(RingWalk::new(), None);
    assert!(!press);
    match next {
        Next::Done(Err(e)) => assert_eq!(e.message(), "could not read the screen"),
        _ => panic!("nothing to see"),
    }
}

#[test]
fn what_a_calibration_recorded_is_printed() {
    let mut phone = Phone::new(1, 0);
    let ind = calibrate(&mut phone).ok().unwrap();
    let text = ind.dump();
    assert!(text.starts_with(
        "-- ring of 4 modes; lower=ring[0] upper=ring[1]\n-- ring[0] glyphs=2 tops=[Some(3), Some(0)] lower=true\n........##.......\n"
    ));
    assert!(text.contains("-- ring[1] glyphs=2 tops=[Some(0), Some(0)] lower=false\n"));
    assert_eq!(text.lines().count(), 1 + 4 * 21);
}

fn reach(ctl: &mut Controller, phone: &mut Phone, want: Case) -> (Result<(), ReachError>, usize) {
    let mut looks = 0;
    let mut next = ctl.reach_case(want);
    loop {
        let r: Reach = match next {
            ReachNext::Done(r) => return (r, looks),
            ReachNext::Look(r) => r,
        };
        looks += 1;
        let (press, after) = ctl.looked(r, phone.look());
        if press {
            phone.press();
        }
        next = after;
    }
}

#[test]
fn a_case_is_reached_by_looking() {
    let mut ctl = Controller::new();
    assert_eq!(ctl.dump_modes(), "(no input-mode ring calibrated)\n");
    let mut phone = Phone::new(0, 0);
    assert!(reach(&mut ctl, &mut phone, Case::Upper).0.is_ok());
    assert_eq!(phone.at, 2);
    // Once around to calibrate, and two more.
    assert_eq!(phone.presses, 6);
    // Already there: one look and no press.
    let (r, looks) = reach(&mut ctl, &mut phone, Case::Upper);
    assert!(r.is_ok());
    assert_eq!((looks, phone.presses), (1, 6));
    // A press that only wakes the banner does no harm.
    phone.lost = 1;
    assert!(reach(&mut ctl, &mut phone, Case::Lower).0.is_ok());
    assert_eq!((phone.at, phone.presses), (1, 10));
    assert!(ctl.dump_modes().starts_with("-- ring of 4 modes; lower=ring[1] upper=ring[2]\n"));
}

#[test]
fn nothing_is_pressed_where_nothing_listens() {
    let mut ctl = Controller::new();
    let mut phone = Phone::new(0, 1000);
    let (r, _) = reach(&mut ctl, &mut phone, Case::Lower);
    assert_eq!(r.err().unwrap().message(), NO_FIELD);
    assert_eq!(phone.presses, 2);
    let (r, looks) = reach(&mut ctl, &mut phone, Case::Upper);
    assert_eq!(r.err().unwrap().message(), NO_FIELD);
    assert_eq!((looks, phone.presses), (0, 2));
    // Navigating may have moved the focus.
    ctl.note_navigation();
    phone.lost = 0;
    assert!(reach(&mut ctl, &mut phone, Case::Lower).0.is_ok());
}

#[test]
fn a_walk_that_gets_nowhere_says_what_it_saw() {
    let mut ctl = Controller::new();
    let mut phone = Phone::new(0, 0);
    assert!(reach(&mut ctl, &mut phone, Case::Lower).0.is_ok());
    let before = phone.presses;
    phone.lost = 1000;
    let (r, _) = reach(&mut ctl, &mut phone, Case::Upper);
    assert_eq!(
        r.err().unwrap().message(),
        "could not reach Upper on the phone's input-mode cycle (4 modes; the walk saw Lower -> Lower -> Lower -> Lower -> Lower)"
    );
    assert_eq!(phone.presses, before + 5);
    // An indicator that is gone.
    phone.ring = vec![&["#"]; 4];
    let (r, _) = reach(&mut ctl, &mut phone, Case::Upper);
    assert_eq!(
        r.err().unwrap().message(),
        "cannot see the phone's input mode; is a text field focused?"
    );
    assert_eq!(phone.presses, before + 5);
}

#[test]
fn the_hand_types_a_text_and_reports_the_rest() {
    let mut ctl = Controller::new();
    let (steps, skipped) = ctl.type_text("a(b)\u{e9}");
    assert_eq!(skipped, ['(', ')', '\u{e9}']);
    assert_eq!(steps.first(), Some(&Step::Mode(Case::Lower)));
    assert_eq!(steps.last(), Some(&Step::Wait(ADVANCE_MS)));
    assert_eq!(steps.iter().filter(|s| matches!(s, Step::Key("2"))).count(), 3);
    assert_eq!(ctl.settle_typing(), []);
    assert_eq!(ctl.backspace(), [Step::Key("DEL")]);
    assert_eq!(ctl.press_mode_key(), [Step::Key("POUND"), Step::Wait(1900)]);
    assert_eq!(ctl.send("pound").as_deref(), Some("1 523\n"));
    assert_eq!(ctl.send("nosuchkey"), None);
    assert_eq!(ctl.type_char('%'), None);
    assert_eq!(ctl.type_char('5').unwrap().len(), 7);
}
