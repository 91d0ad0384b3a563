//! The key table and the keystrokes that reach it.
use kaimirror::keys::{from_keystroke, lookup, lookup_exact, names, KEYS};

#[test]
fn the_named_keys_are_all_findable_case_insensitively() {
    for (name, node, code) in &KEYS {
        assert_eq!(lookup(name), Some((*node, *code)));
        assert_eq!(lookup(&name.to_lowercase()), Some((*node, *code)));
    }
    assert_eq!(lookup("nosuchkey"), None);
}

#[test]
fn the_navigation_cluster_reaches_the_phone_keys() {
    assert_eq!(from_keystroke("\x1b[2~"), Some("SOFT_LEFT"));
    assert_eq!(from_keystroke("\x1b[5~"), Some("SOFT_RIGHT"));
    assert_eq!(from_keystroke("\x1b[3~"), Some("CALL"));
}

#[test]
fn punctuation_no_longer_means_a_phone_key() {
    for seq in [",", ".", "c"] {
        assert_eq!(from_keystroke(seq), None, "{seq:?} should be typeable");
    }
}

#[test]
fn back_is_the_delete_key_and_not_a_soft_key() {
    assert_eq!(lookup("BACK"), Some((1, 48)));
    assert_eq!(lookup("BACK"), lookup("DEL"));
    assert_ne!(lookup("BACK"), lookup("SOFT_RIGHT"));
    assert_eq!(lookup("SOFT_RIGHT"), Some((1, 158)));
}

#[test]
fn the_red_key_is_the_power_node() {
    assert_eq!(lookup("END"), Some((0, 116)));
    assert_eq!(lookup("END"), lookup("POWER"));
    assert_eq!(from_keystroke("\x1b[6~"), Some("END"));
}

#[test]
fn names_of_other_scripts_are_looked_up_in_their_capitals() {
    // The long s has the ASCII capital S.
    assert_eq!(lookup("\u{17f}tar"), lookup("STAR"));
    assert_eq!(lookup("\u{e9}nd"), None);
    // Letter for letter, a small letter is another name.
    assert_eq!(lookup_exact("star"), None);
    assert_eq!(lookup_exact("STAR"), Some((1, 522)));
}

#[test]
fn the_names_are_listed_in_order() {
    let listed = names();
    let mut want: Vec<&str> = KEYS.iter().map(|k| k.0).collect();
    want.sort();
    assert_eq!(listed, want);
    assert_eq!(listed[0], "0");
    assert_eq!(listed[33], "VOLUMEUP");
}

#[test]
fn every_keystroke_of_the_table() {
    for (seq, key) in [
        ("\x1b[A", "UP"),
        ("\x1b[B", "DOWN"),
        ("\x1b[C", "RIGHT"),
        ("\x1b[D", "LEFT"),
        ("\r", "OK"),
        ("\n", "OK"),
        ("\x7f", "BACK"),
        ("\x08", "BACK"),
        ("*", "STAR"),
        ("#", "POUND"),
        ("m", "MENU"),
        ("-", "VOLUMEDOWN"),
        ("+", "VOLUMEUP"),
        ("0", "0"),
        ("7", "7"),
    ] {
        assert_eq!(from_keystroke(seq), Some(key), "{seq:?}");
        assert!(lookup(key).is_some());
    }
    for seq in ["", "77", "\u{663}", "a", "\x1b", "\x1b[2"] {
        assert_eq!(from_keystroke(seq), None, "{seq:?}");
    }
}
