//! What keystrokes mean, and what they lead to.
use kaimirror::control::{
    dispatch, dropped_line, type_error_line, Action, Gather, Mode, Reaction, Session, TEXT_HELP,
};
use kaimirror::controller::ReachError;
use kaimirror::imemode::Case;
use kaimirror::multitap::{Step, ADVANCE_MS};

#[test]
fn esc_and_ctrl_c_quit_from_either_mode() {
    for mode in [Mode::Nav, Mode::Text] {
        assert_eq!(dispatch("\x1b", mode), Action::Quit);
        assert_eq!(dispatch("\x03", mode), Action::Quit);
    }
    assert_eq!(dispatch("q", Mode::Text), Action::Type('q'));
    assert_eq!(dispatch("q", Mode::Nav), Action::Ignore);
}

#[test]
fn tab_is_the_only_mode_switch() {
    assert_eq!(dispatch("\t", Mode::Nav), Action::Toggle);
    assert_eq!(dispatch("\t", Mode::Text), Action::Toggle);
}

#[test]
fn an_arrow_is_not_a_quit() {
    for mode in [Mode::Nav, Mode::Text] {
        assert_eq!(dispatch("\x1b[A", mode), Action::Nav("UP"));
    }
}

#[test]
fn the_same_byte_navigates_or_types() {
    for (seq, nav, ch) in
        [("m", "MENU", 'm'), ("5", "5", '5'), ("*", "STAR", '*'), ("#", "POUND", '#')]
    {
        assert_eq!(dispatch(seq, Mode::Nav), Action::Nav(nav));
        assert_eq!(dispatch(seq, Mode::Text), Action::Type(ch));
    }
}

#[test]
fn arrows_navigate_in_both_modes() {
    for mode in [Mode::Nav, Mode::Text] {
        assert_eq!(dispatch("\x1b[A", mode), Action::Nav("UP"));
        assert_eq!(dispatch("\x1b[D", mode), Action::Nav("LEFT"));
    }
}

#[test]
fn the_cluster_keys_navigate_in_both_modes() {
    for mode in [Mode::Nav, Mode::Text] {
        assert_eq!(dispatch("\x1b[2~", mode), Action::Nav("SOFT_LEFT"));
        assert_eq!(dispatch("\x1b[5~", mode), Action::Nav("SOFT_RIGHT"));
        assert_eq!(dispatch("\x1b[3~", mode), Action::Nav("CALL"));
    }
}

#[test]
fn the_punctuation_they_left_types_and_no_longer_navigates() {
    for (seq, ch) in [(",", ','), (".", '.'), ("c", 'c')] {
        assert_eq!(dispatch(seq, Mode::Text), Action::Type(ch));
        assert_eq!(dispatch(seq, Mode::Nav), Action::Ignore);
    }
}

#[test]
fn enter_and_backspace_change_meaning_with_the_mode() {
    assert_eq!(dispatch("\r", Mode::Nav), Action::Nav("OK"));
    assert_eq!(dispatch("\r", Mode::Text), Action::Enter);
    assert_eq!(dispatch("\x7f", Mode::Nav), Action::Nav("BACK"));
    assert_eq!(dispatch("\x7f", Mode::Text), Action::Backspace);
}

#[test]
fn text_mode_passes_every_printable_character_through() {
    for ch in ' '..='~' {
        let seq = ch.to_string();
        assert_eq!(dispatch(&seq, Mode::Text), Action::Type(ch), "{ch:?}");
    }
}

#[test]
fn unknown_control_bytes_are_ignored_rather_than_typed() {
    assert_eq!(dispatch("\x04", Mode::Nav), Action::Ignore);
    assert_eq!(dispatch("\x1b[Z", Mode::Nav), Action::Ignore);
}

#[test]
fn what_is_not_ascii_is_not_typed() {
    assert_eq!(dispatch("\u{e9}", Mode::Text), Action::Ignore);
    assert_eq!(dispatch("", Mode::Text), Action::Ignore);
    assert_eq!(dispatch("\x1b[Z", Mode::Text), Action::Ignore);
}

fn gathered(bytes: &[u8]) -> (String, usize) {
    let mut g = Gather::start(bytes[0]);
    let mut used = 1;
    while g.wants_more() {
        let next = bytes.get(used).copied();
        if next.is_some() {
            used += 1;
        }
        g.take(next);
    }
    (g.keystroke().to_string(), used)
}

#[test]
fn a_sequence_is_read_to_its_final_byte() {
    assert_eq!(gathered(b"\x1b[Am"), ("\x1b[A".to_string(), 3));
    assert_eq!(gathered(b"\x1b[2~x"), ("\x1b[2~".to_string(), 4));
    assert_eq!(gathered(b"\x1b[1;5Cx"), ("\x1b[1;5C".to_string(), 6));
    // Alone, it is the Esc key.
    assert_eq!(gathered(b"\x1b"), ("\x1b".to_string(), 1));
    // Nothing else starts a sequence.
    assert_eq!(gathered(b"m["), ("m".to_string(), 1));
    // A byte is a character of the same number.
    assert_eq!(gathered(b"\xe9"), ("\u{e9}".to_string(), 1));
    // No more than eight bytes belong to a sequence.
    assert_eq!(gathered(b"\x1b[11111111111A"), ("\x1b[1111111".to_string(), 9));
}

fn said(r: Reaction) -> (Vec<Step>, String) {
    match r {
        Reaction::Do { steps, say } => (steps, say),
        _ => panic!("nothing to do"),
    }
}

#[test]
fn a_session_goes_between_its_modes() {
    let mut s = Session::new(Mode::Nav);
    assert_eq!(said(s.keystroke("\t")), (vec![], TEXT_HELP.to_string()));
    match s.keystroke("a") {
        Reaction::Type { ch, steps } => {
            assert_eq!(ch, 'a');
            assert_eq!(steps, [Step::Mode(Case::Lower), Step::Key("2")]);
        }
        _ => panic!("a letter types"),
    }
    assert_eq!(
        said(s.keystroke("\t")),
        (vec![Step::Wait(ADVANCE_MS)], "  [nav mode]".to_string())
    );
    assert_eq!(said(s.keystroke("m")), (vec![Step::Key("MENU")], "  -> MENU".to_string()));
    assert!(matches!(s.keystroke("a"), Reaction::Nothing));
    assert!(matches!(s.keystroke("\x1b"), Reaction::Quit));
}

#[test]
fn a_session_types_deletes_and_enters() {
    let mut s = Session::new(Mode::Text);
    assert_eq!(said(s.keystroke("\x7f")), (vec![Step::Key("DEL")], "  -> BACKSPACE".to_string()));
    assert!(matches!(s.keystroke("5"), Reaction::Type { ch: '5', .. }));
    assert_eq!(
        said(s.keystroke("\x08")),
        (vec![Step::Wait(ADVANCE_MS), Step::Key("DEL")], "  -> BACKSPACE".to_string())
    );
    assert_eq!(said(s.keystroke("\n")), (vec![Step::Key("OK")], "  -> ENTER".to_string()));
    // No way to reach it, and nothing said of it.
    assert!(matches!(s.keystroke("%"), Reaction::Nothing));
}

/// The queue goes, and the mode stays.
#[test]
fn a_failed_character_takes_the_queue_along() {
    let mut s = Session::new(Mode::Text);
    assert!(matches!(s.keystroke("H"), Reaction::Type { ch: 'H', .. }));
    let landed = s.typed(&Ok(()));
    assert_eq!((landed.flush, landed.say), (false, None));
    let failed = s.typed(&Err(ReachError::NoField));
    assert!(failed.flush);
    assert_eq!(failed.say, Some(type_error_line(&ReachError::NoField)));
    // Text, and not MENU.
    assert!(matches!(s.keystroke("m"), Reaction::Type { ch: 'm', .. }));
}

#[test]
fn what_is_said_of_a_character_that_failed() {
    assert_eq!(
        type_error_line(&ReachError::Unseen),
        "  !! cannot see the phone's input mode; is a text field focused?"
    );
    assert_eq!(dropped_line(0), None);
    assert_eq!(dropped_line(12).as_deref(), Some("  !! dropped 12 queued keystroke(s)"));
}
