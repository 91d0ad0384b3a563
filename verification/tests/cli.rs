//! Command lines and the help that is printed of them.
use kaimirror::keys::names;
use kaimirror::cli::{help, parse, prepare, CliError, Parsed, Prepare, Stop, DEFAULT_FPS, VERSION};

fn read(line: &str) -> Parsed {
    parse(line.split_whitespace().map(String::from).collect())
}

fn bad(line: &str) -> String {
    match read(line).stop {
        Stop::Bad(e) => e.message(),
        _ => panic!("{line} was read"),
    }
}

#[test]
fn nothing_said_is_the_defaults() {
    let p = read("");
    assert!(matches!(p.stop, Stop::End));
    assert_eq!(p.args.cmd, None);
    assert_eq!((p.args.display, p.args.fps), (0, DEFAULT_FPS));
    assert_eq!(p.args.format, "raw");
    assert!(!p.args.no_wake && !p.args.control && !p.args.list);
    assert!(p.args.scales.is_empty() && p.args.positionals.is_empty());
    assert_eq!(p.args.target, None);
}

#[test]
fn options_work_on_either_side_of_the_command() {
    for line in [
        "--display 1 --no-wake shot cover.png",
        "shot --display 1 --no-wake cover.png",
        "shot cover.png --display=1 --no-wake",
    ] {
        let p = read(line);
        assert!(matches!(p.stop, Stop::End), "{line}");
        assert_eq!(p.args.cmd.as_deref(), Some("shot"), "{line}");
        assert_eq!(p.args.display, 1, "{line}");
        assert!(p.args.no_wake, "{line}");
        assert_eq!(p.args.positionals, ["cover.png"], "{line}");
    }
}

#[test]
fn every_option_is_read() {
    let p = read("view --control --list --format png --fps=+10 --scale 3 --scale=0.5 --target 2 x a=b -");
    assert!(matches!(p.stop, Stop::End));
    assert_eq!(p.args.cmd.as_deref(), Some("view"));
    assert!(p.args.control && p.args.list);
    assert_eq!(p.args.format, "png");
    assert_eq!(p.args.fps, 10);
    assert_eq!(p.args.scales, ["3", "0.5"]);
    assert_eq!(p.args.target, Some(2));
    assert_eq!(p.args.positionals, ["x", "a=b", "-"]);
}

#[test]
fn only_the_first_command_is_one() {
    let p = read("key UP key");
    assert_eq!(p.args.cmd.as_deref(), Some("key"));
    assert_eq!(p.args.positionals, ["UP", "key"]);
    let p = read("nosuch view");
    assert_eq!(p.args.cmd.as_deref(), Some("view"));
    assert_eq!(p.args.positionals, ["nosuch"]);
    for cmd in ["view", "record", "shot", "snapshot", "key", "type", "mode", "wake"] {
        assert_eq!(read(cmd).args.cmd.as_deref(), Some(cmd));
    }
}

#[test]
fn what_is_wrong_is_said() {
    assert_eq!(bad("--display"), "--display needs a value");
    assert_eq!(bad("--display 2"), "--display must be 0 or 1, got \"2\"");
    assert_eq!(bad("--format=gif"), "--format must be raw or png, got \"gif\"");
    assert_eq!(bad("--fps 0"), "--fps must be a positive integer, got \"0\"");
    assert_eq!(bad("--fps 4294967296"), "--fps must be a positive integer, got \"4294967296\"");
    assert_eq!(bad("--fps=a\"b"), "--fps must be a positive integer, got \"a\\\"b\"");
    assert_eq!(bad("--target -1"), "--target must be the number of a target, got \"-1\"");
    assert_eq!(bad("--scale"), "--scale needs a value");
    assert_eq!(bad("--nosuch=1"), "unknown option \"--nosuch\"");
    assert_eq!(bad("-x=1"), "unknown option \"-x=1\"");
    assert_eq!(
        CliError::Scale("x".to_string()).message(),
        "--scale must be a positive number, got \"x\""
    );
    assert_eq!(CliError::Unknown("-q".to_string()).describe("<-q>"), "unknown option <-q>");
    // The first thing wrong is what counts, and what came before it is kept.
    let p = read("--scale 2 --fps x --nosuch");
    assert_eq!(p.args.scales, ["2"]);
    assert!(matches!(p.stop, Stop::Bad(CliError::Fps(_))));
}

#[test]
fn help_and_version_stop_the_reading() {
    assert!(matches!(read("--help view").stop, Stop::Help(None)));
    match read("view --fps 5 -h --nosuch").stop {
        Stop::Help(Some(cmd)) => assert_eq!(cmd, "view"),
        _ => panic!("help of view"),
    }
    assert!(matches!(read("-V").stop, Stop::Version));
    assert_eq!(VERSION, "0.2.0");
}

#[test]
fn help_lists_everything() {
    let all = help(None);
    for cmd in ["view", "record", "shot", "snapshot", "key", "type", "mode", "wake"] {
        assert!(all.contains(&format!("\n  {cmd} ")), "{cmd}");
        let own = help(Some(cmd));
        assert!(own.starts_with(&format!("usage: kaimirror {cmd}")), "{cmd}");
        assert_ne!(own, all);
    }
    assert_eq!(help(Some("nosuch")), all);
    assert!(all.contains("\n  --fps N "));
    assert!(help(Some("snapshot")).contains("--target N"));
}

#[test]
fn help_of_keys_lists_them_eight_to_a_line() {
    let text = help(Some("key"));
    let listed = text.split("key names:\n").nth(1).unwrap();
    let lines: Vec<&str> = listed.lines().collect();
    assert_eq!(lines.len(), 5);
    assert_eq!(lines[0], "  0, 1, 2, 3, 4, 5, 6, 7");
    assert_eq!(lines[4], "  VOLUMEDOWN, VOLUMEUP");
    assert!(listed.ends_with("VOLUMEUP\n"));
}

#[test]
fn the_help_of_wake_word_for_word() {
    assert_eq!(
        help(Some("wake")),
        "usage: kaimirror wake\n\nTap power to light the panel.  Power *toggles*: if the panel was\nalready lit, this turns it off.\n"
    );
}

const CAPTURE: &str = "\
capture options (usable on either side of the command):
  --display {0,1}    0=primary panel, 1=external/cover display (default: 0);
                     geometry is read from the frame
  --no-wake          do not tap power before capturing; a blanked panel
                     captures as solid black
";

const STREAM: &str = "\
  --format {raw,png} raw RGB565 (default, content-independent rate) or png
                     (12x less bandwidth, slower)
  --fps N            frame rate: caps the device-side capture and is what the
                     sink is told (default: 30).  These are one knob because
                     any gap between them silently produces a wrong-speed
                     video
";

#[test]
fn help_word_for_word() {
    assert_eq!(
        help(Some("view")),
        format!(
            "usage: kaimirror view [options]\n\n\
             Live mirror in an ffplay window.\n\n\
             options:\n\
             \x20 --control          forward terminal keystrokes to the device over a\n\
             \x20                    persistent channel (~0.3ms per key against ~140ms for\n\
             \x20                    `kaimirror key`); needs a TTY.  Type in the terminal:\n\
             \x20                    the mirror window keeps its own keystrokes\n\
             \x20 --scale F          window magnification, nearest-neighbour (default: 2)\n\
             {STREAM}\n{CAPTURE}"
        )
    );
    assert_eq!(
        help(Some("record")),
        format!(
            "usage: kaimirror record [options] OUTPUT\n\n\
             Record the screen to a video file.  Ctrl-C finalizes it; an\n\
             existing file is overwritten.  The extension picks the container.\n\n\
             options:\n{STREAM}\n{CAPTURE}"
        )
    );
    assert_eq!(
        help(Some("shot")),
        format!(
            "usage: kaimirror shot [options] [OUTPUT]\n\n\
             Save a single screenshot (default: kaishot.png).  Always captured\n\
             as PNG: one frame is not worth optimising, and PNG keeps more\n\
             colour precision than the RGB565 raw dump.\n\n\
             options:\n{CAPTURE}"
        )
    );
    assert!(help(Some("key")).starts_with(
        "usage: kaimirror key [--list] KEY [KEY ...]\n\n\
         Inject key presses on the raw /dev/input nodes.\n\n\
         options:\n\x20 --list             print the known key names and exit\n\n\
         key names:\n"
    ));
    let all = help(None);
    assert!(all.starts_with(
        "usage: kaimirror [options] COMMAND [args]\n\n\
         scrcpy-style screen mirroring for KaiOS 3.x devices.\n\n"
    ));
    assert!(all.contains(&format!(
        "commands:\n\
         \x20 view               live mirror in an ffplay window\n\
         \x20 record OUTPUT      record the screen to a video file\n\
         \x20 shot [OUTPUT]      save a single screenshot\n\
         \x20 snapshot           read the screen as text, not pixels\n\
         \x20 key KEY [KEY ...]  inject key presses (key --list for names)\n\
         \x20 type [TEXT ...]    type on the phone, live or one line\n\
         \x20 mode               show how the phone's input mode is read\n\
         \x20 wake               tap power to light the panel\n\n\
         {CAPTURE}\n{STREAM}\nother options:\n"
    )));
}

#[test]
fn every_key_is_in_the_help_of_keys() {
    let text = help(Some("key"));
    for name in names() {
        assert!(text.contains(name), "{name}");
    }
}

/// Each option moved to every place that is not between another and its value.
#[test]
fn an_option_may_stand_anywhere() {
    let groups: [&[&str]; 6] =
        [&["--fps", "5"], &["shot"], &["--format=png"], &["a.png"], &["--list"], &["b"]];
    let want = parse(groups.concat().iter().map(|s| s.to_string()).collect());
    for from in [0, 2, 4] {
        for to in 0..groups.len() {
            let mut moved: Vec<&[&str]> = groups.to_vec();
            let o = moved.remove(from);
            moved.insert(to, o);
            let got = parse(moved.concat().iter().map(|s| s.to_string()).collect());
            assert!(matches!(got.stop, Stop::End));
            assert_eq!(got.args.cmd, want.args.cmd);
            assert_eq!(got.args.fps, want.args.fps);
            assert_eq!(got.args.format, want.args.format);
            assert_eq!(got.args.list, want.args.list);
            assert_eq!(got.args.positionals, want.args.positionals);
        }
    }
}

#[test]
fn what_a_command_needs_first() {
    assert_eq!(prepare("key", true, false), Prepare::Nothing);
    assert_eq!(prepare("key", false, false), Prepare::Root);
    assert_eq!(prepare("wake", true, false), Prepare::Root);
    assert_eq!(prepare("view", false, false), Prepare::Capture { wake: true });
    assert_eq!(prepare("shot", false, true), Prepare::Capture { wake: false });
    assert_eq!(prepare("type", false, true), Prepare::Typing);
    assert_eq!(prepare("mode", false, false), Prepare::Typing);
    assert_eq!(prepare("snapshot", true, false), Prepare::Socket);
}
