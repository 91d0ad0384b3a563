//! Plans read back through a keypad that behaves as the phone's does.
use kaimirror::imemode::Case;
use kaimirror::keypad::{DEVICE_HOLD_MS, DEVICE_MIN_TAP_MS, DEVICE_MODE_MS, DEVICE_TIMEOUT_MS};
use kaimirror::multitap::{find, MultiTap, Step, KEYPAD, PUNCT};

struct Keypad {
    upper: bool,
    out: String,
    pending: Option<(&'static str, usize)>,
    since_tap: u64,
    elapsed: u64,
    switches: u32,
}

impl Keypad {
    fn new() -> Self {
        Keypad {
            upper: false,
            out: String::new(),
            pending: None,
            since_tap: u64::MAX,
            elapsed: 0,
            switches: 0,
        }
    }

    fn cycle_of(key: &str) -> &'static str {
        if key == "1" {
            PUNCT
        } else {
            KEYPAD.iter().find(|(k, _)| *k == key).map(|(_, c)| *c).expect("real key")
        }
    }

    fn commit(&mut self) {
        let Some((key, i)) = self.pending.take() else { return };
        let ch = Self::cycle_of(key).as_bytes()[i] as char;
        self.out.push(if self.upper { ch.to_ascii_uppercase() } else { ch });
        // Once a sentence ends, sentence case is asserted by itself.
        if matches!(ch, '.' | '!' | '?') {
            self.upper = true;
        }
    }

    fn tap(&mut self, key: &'static str) {
        if self.pending.map(|(k, _)| k) == Some(key) {
            assert!(
                self.since_tap >= DEVICE_MIN_TAP_MS,
                "tapped {key} again {}ms later, which is dropped",
                self.since_tap
            );
        }
        let n = Self::cycle_of(key).len();
        self.pending = match self.pending {
            Some((k, i)) if k == key && self.since_tap < DEVICE_TIMEOUT_MS => Some((k, (i + 1) % n)),
            _ => {
                self.commit();
                Some((key, 0))
            }
        };
        self.since_tap = DEVICE_HOLD_MS;
        self.elapsed += DEVICE_HOLD_MS;
    }

    fn step(&mut self, step: Step) {
        match step {
            Step::Wait(ms) => {
                self.since_tap = self.since_tap.saturating_add(ms);
                self.elapsed += ms;
                if self.since_tap >= DEVICE_TIMEOUT_MS {
                    self.commit();
                }
            }
            Step::Mode(case) => {
                self.since_tap = self.since_tap.saturating_add(DEVICE_MODE_MS);
                if self.since_tap >= DEVICE_TIMEOUT_MS {
                    self.commit();
                }
                self.upper = case == Case::Upper;
                self.elapsed += DEVICE_MODE_MS;
                self.switches += 1;
            }
            Step::Key("OK") => {
                self.commit();
                self.out.push('\n');
                self.since_tap = u64::MAX;
                self.elapsed += DEVICE_HOLD_MS;
            }
            Step::Key(key) => self.tap(key),
        }
    }

    fn finish(mut self) -> String {
        self.commit();
        self.out
    }
}

fn round_trip(text: &str) -> String {
    run(text).0
}

/// Plan, run, and what it cost: milliseconds and mode switches.
fn run(text: &str) -> (String, u64, u32) {
    let mut tap = MultiTap::new();
    let mut pad = Keypad::new();
    let mut steps = Vec::new();
    for ch in text.chars() {
        steps.extend(tap.plan(ch).unwrap_or_else(|| panic!("no plan for {ch:?}")));
    }
    steps.extend(tap.settle());
    for step in steps {
        pad.step(step);
    }
    let (ms, switches) = (pad.elapsed, pad.switches);
    (pad.finish(), ms, switches)
}

fn typeable() -> Vec<char> {
    (' '..='~').filter(|&c| find(c).is_some()).collect()
}

/// Deterministic noise, so that a failure can be had again from the seed.
struct Rng(u64);

impl Rng {
    fn next(&mut self) -> u64 {
        let mut x = self.0;
        x ^= x >> 12;
        x ^= x << 25;
        x ^= x >> 27;
        self.0 = x;
        x.wrapping_mul(0x2545_F491_4F6C_DD1D)
    }

    fn pick<T: Copy>(&mut self, from: &[T]) -> T {
        from[(self.next() % from.len() as u64) as usize]
    }
}

#[test]
fn every_pair_of_characters_survives_the_round_trip() {
    let typeable = typeable();
    let mut checked = 0;
    for &a in &typeable {
        for &b in &typeable {
            let text: String = [a, b].iter().collect();
            assert_eq!(round_trip(&text), text);
            checked += 1;
        }
    }
    // 75 typeable characters, so 5,625 ordered pairs.
    assert!(checked > 5_000, "only checked {checked} pairs");
}

/// Where a mode switch can be caught between two characters that share a key.
#[test]
fn every_triple_of_characters_survives_the_round_trip() {
    let typeable = typeable();
    for &a in &typeable {
        for &b in &typeable {
            for &c in &typeable {
                let text: String = [a, b, c].iter().collect();
                assert_eq!(round_trip(&text), text, "triple {text:?}");
            }
        }
    }
}

#[test]
fn random_lines_survive_the_round_trip() {
    let typeable = typeable();
    let mut rng = Rng(0x5EED_1234_ABCD_EF01);
    for _ in 0..2_000 {
        let len = 1 + (rng.next() % 200) as usize;
        let text: String = (0..len).map(|_| rng.pick(&typeable)).collect();
        assert_eq!(round_trip(&text), text, "seeded line {text:?}");
    }
}

/// A small alphabet, so that collisions on one key and case flips come often.
#[test]
fn random_lines_over_a_cramped_alphabet_survive() {
    let cramped: Vec<char> = "abcABCmno. ".chars().collect();
    let mut rng = Rng(0x0BAD_C0FF_EE12_3456);
    for _ in 0..4_000 {
        let len = 1 + (rng.next() % 60) as usize;
        let text: String = (0..len).map(|_| rng.pick(&cramped)).collect();
        assert_eq!(round_trip(&text), text, "seeded line {text:?}");
    }
}

#[test]
fn long_runs_of_one_key_survive() {
    for text in ["aaaaaaaa", "mmmmmmmm", "sssss", "zzzzzz", "        ", "........"] {
        assert_eq!(round_trip(text), text);
    }
    for text in ["aAaAaAaA", "mMmMmM", "sSsS"] {
        assert_eq!(round_trip(text), text);
    }
}

#[test]
fn realistic_lines_survive() {
    for text in [
        "Hello, world! kaimirror 0.2.0 test@example.com 99",
        "Meet me at 7:30, do not be late.",
        "wifi-password_2024",
        "Call Bob?\nYes.\n",
        "search: multi-tap timing",
        "1600 Pennsylvania Ave; Washington",
        "a.b.c.d.e.f",
        "THE QUICK BROWN FOX jumps over 13 lazy dogs.",
    ] {
        assert_eq!(round_trip(text), text, "{text:?}");
    }
}

#[test]
fn text_typed_either_side_of_a_settle_survives() {
    for (first, second) in [
        ("hello", "world"),
        ("abc", "abc"),
        ("Hi", "hi"),
        ("end.", "next"),
        ("mno", "mno"),
    ] {
        let mut tap = MultiTap::new();
        let mut pad = Keypad::new();
        for ch in first.chars().chain(Some('\u{0}')).chain(second.chars()) {
            let steps = if ch == '\u{0}' { tap.settle() } else { tap.plan(ch).unwrap() };
            for step in steps {
                pad.step(step);
            }
        }
        for step in tap.settle() {
            pad.step(step);
        }
        assert_eq!(pad.finish(), format!("{first}{second}"));
    }
}

#[test]
fn a_line_of_one_case_pays_for_one_mode_switch() {
    let (out, _, switches) = run("hello world");
    assert_eq!(out, "hello world");
    assert_eq!(switches, 1, "one lowercase run should ask once");

    let (_, _, switches) = run("hi. there friend");
    assert_eq!(switches, 2);

    let (out, _, switches) = run("aAaA");
    assert_eq!(out, "aAaA");
    assert_eq!(switches, 4);
}

#[test]
fn a_short_message_types_in_a_sane_time() {
    let (out, ms, _) = run("hello world");
    assert_eq!(out, "hello world");
    assert!(ms < 20_000, "11 characters should not take {ms}ms");
}

#[test]
fn a_carriage_return_lands_as_a_line_break() {
    assert_eq!(round_trip("a\rb"), "a\nb");
}
