//! Planning: which keys, how often, and the waits between them.
use kaimirror::imemode::Case;
use kaimirror::keys;
use kaimirror::multitap::{find, MultiTap, Step, ADVANCE_MS, TAP_MS};

fn keys_of(steps: &[Step]) -> Vec<&'static str> {
    steps
        .iter()
        .filter_map(|s| match s {
            Step::Key(k) => Some(*k),
            _ => None,
        })
        .collect()
}

fn modes(steps: &[Step]) -> Vec<Case> {
    steps
        .iter()
        .filter_map(|s| match s {
            Step::Mode(c) => Some(*c),
            _ => None,
        })
        .collect()
}

fn plan_all(text: &str) -> Vec<Step> {
    let mut t = MultiTap::new();
    let mut out = Vec::new();
    for ch in text.chars() {
        out.extend(t.plan(ch).unwrap_or_else(|| panic!("no plan for {ch:?}")));
    }
    out
}

#[test]
fn a_letter_is_its_position_in_the_key_cycle() {
    let mut t = MultiTap::new();
    assert_eq!(keys_of(&t.plan('a').unwrap()), ["2"]);
    assert_eq!(keys_of(&t.plan('c').unwrap()), ["2", "2", "2"]);
    assert_eq!(keys_of(&t.plan('s').unwrap()), ["7", "7", "7", "7"]);
}

/// Without the timeout "on" types as one letter.
#[test]
fn two_characters_on_one_key_wait_between_them() {
    let steps = plan_all("on");
    assert_eq!(keys_of(&steps), ["6", "6", "6", "6", "6"]);
    let waits: Vec<&Step> = steps
        .iter()
        .filter(|s| matches!(s, Step::Wait(ms) if *ms >= ADVANCE_MS))
        .collect();
    assert_eq!(waits.len(), 1, "exactly one advance wait, between o and n");
}

#[test]
fn different_keys_need_no_wait() {
    let steps = plan_all("he");
    assert_eq!(keys_of(&steps), ["4", "4", "3", "3"]);
    assert!(
        !steps.iter().any(|s| matches!(s, Step::Wait(ms) if *ms == ADVANCE_MS)),
        "h and e are on different keys, so nothing has to time out"
    );
}

/// Case is a request that is met by looking at the screen, not a count of `#`.
#[test]
fn case_is_requested_not_counted() {
    let steps = plan_all("aB");
    assert_eq!(modes(&steps), [Case::Lower, Case::Upper]);
    assert!(!keys_of(&steps).contains(&"POUND"), "no plan presses # itself");
}

#[test]
fn a_run_of_one_case_asks_once() {
    assert_eq!(modes(&plan_all("hello")), [Case::Lower]);
    assert_eq!(modes(&plan_all("HELLO")), [Case::Upper]);
}

#[test]
fn a_sentence_end_forces_the_next_letter_to_ask_again() {
    assert_eq!(modes(&plan_all("hi there")), [Case::Lower]);
    assert_eq!(
        modes(&plan_all("hi. there")),
        [Case::Lower, Case::Lower],
        "the period resets the mode, so `there` has to ask again"
    );
}

#[test]
fn digits_ask_for_no_mode() {
    let steps = plan_all("5");
    assert_eq!(keys_of(&steps), ["5", "5", "5", "5"]);
    assert!(modes(&steps).is_empty());
}

#[test]
fn space_and_enter_are_single_keys() {
    let mut t = MultiTap::new();
    assert_eq!(keys_of(&t.plan(' ').unwrap()), ["0"]);
    assert_eq!(keys_of(&t.plan('\n').unwrap()), ["OK"]);
}

#[test]
fn punctuation_comes_off_the_one_key() {
    let mut t = MultiTap::new();
    assert_eq!(keys_of(&t.plan('.').unwrap()), ["1"]);
    assert_eq!(keys_of(&t.plan(',').unwrap()).len(), 2);
    assert_eq!(t.plan('\u{20ac}'), None, "a euro sign has no ASCII tap path");
}

/// What the keypad cannot reach stays unreachable.
#[test]
fn unreachable_characters_have_no_plan() {
    let mut t = MultiTap::new();
    for ch in [
        '\'', '"', '(', ')', '%', '&', '*', '#', '$', '<', '>', '[', ']', '{', '}', '\\', '|', '~',
        '^', '`',
    ] {
        assert_eq!(t.plan(ch), None, "{ch:?} is not on the keypad but got a plan");
    }
}

#[test]
fn every_key_the_plan_names_is_a_real_key() {
    let mut t = MultiTap::new();
    for ch in ' '..='~' {
        for step in t.plan(ch).into_iter().flatten() {
            if let Step::Key(name) = step {
                assert!(keys::lookup(name).is_some(), "{name} is not a key");
            }
        }
    }
}

/// The whole plan of a short word, step by step.
#[test]
fn the_plan_of_a_word_step_by_step() {
    assert_eq!(
        plan_all("Ab"),
        [
            Step::Mode(Case::Upper),
            Step::Key("2"),
            Step::Wait(ADVANCE_MS),
            Step::Mode(Case::Lower),
            Step::Key("2"),
            Step::Wait(TAP_MS),
            Step::Key("2"),
        ]
    );
    assert_eq!(ADVANCE_MS, 1900);
    assert_eq!(TAP_MS, 150);
}

#[test]
fn either_line_break_is_the_ok_key_and_ends_the_tap_cycle() {
    let mut t = MultiTap::new();
    t.plan('a').unwrap();
    assert_eq!(t.plan('\r').unwrap(), [Step::Key("OK")]);
    // Nothing is mid-cycle, so the same key needs no wait.
    assert_eq!(t.plan('a').unwrap(), [Step::Key("2")]);
}

#[test]
fn settling_waits_once_and_forgets_the_case() {
    let mut t = MultiTap::new();
    assert_eq!(t.settle(), []);
    t.plan('a').unwrap();
    assert_eq!(t.settle(), [Step::Wait(ADVANCE_MS)]);
    assert_eq!(t.settle(), []);
    assert_eq!(t.plan('a').unwrap(), [Step::Mode(Case::Lower), Step::Key("2")]);
}

#[test]
fn a_character_without_a_plan_changes_nothing() {
    let mut t = MultiTap::new();
    t.plan('a').unwrap();
    assert_eq!(t.plan('%'), None);
    assert_eq!(t.plan('b').unwrap()[0], Step::Wait(ADVANCE_MS));
}

#[test]
fn where_characters_live() {
    assert_eq!(find('a'), Some(("2", 1)));
    assert_eq!(find('Z'), Some(("9", 4)));
    assert_eq!(find('9'), Some(("9", 5)));
    assert_eq!(find('0'), Some(("0", 2)));
    assert_eq!(find('1'), Some(("1", 5)));
    assert_eq!(find('='), Some(("1", 13)));
    assert_eq!(find('*'), None);
    assert_eq!(find('\u{e9}'), None);
}
