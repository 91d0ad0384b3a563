//! The two ends of adb: what the host makes of it, and what the pump does.
use kaimirror::adb::{
    brightness, device_attached, diagnose_no_device, is_root, key_needs_pump, pump_is_current, send_key, start_stream,
    wake_line,
};
use kaimirror::pump::{
    client_line, control_line, hex_text, input_event, kernel_line, key_report, order, pause_before,
    png_complete, request_line, screencap_request, staged_path, written_path, Backend, Duty, KeyPress,
    Order, Runner, Settle, Settling, Went,
};

#[test]
fn a_listed_phone_is_told_from_one_that_is_not_ready() {
    assert!(device_attached("List of devices attached\nABC123\tdevice\n\n"));
    assert!(device_attached("List of devices attached\r\nABC123 device usb:1\r\n"));
    assert!(!device_attached("List of devices attached\nABC123\tunauthorized\n"));
    assert!(!device_attached("List of devices attached\n\n"));
    assert!(!device_attached("x device\n"));
    assert!(!device_attached(""));
    assert_eq!(
        diagnose_no_device("List of devices attached\nABC123\tdevice\n"),
        "could not get adb root (needs a userdebug/ro.debuggable build)"
    );
    assert_eq!(
        diagnose_no_device("List of devices attached\n"),
        "no device (check the cable; `adb devices` should list it)"
    );
}

#[test]
fn answers_of_the_phone() {
    assert!(is_root("uid=0(root) gid=0(root)\n"));
    assert!(!is_root("uid=2000(shell)"));
    assert!(pump_is_current(" 350000\r\n", 350000));
    assert!(!pump_is_current("350001\n", 350000));
    assert!(!pump_is_current("", 0));
    assert!(key_needs_pump(false, ""));
    assert!(key_needs_pump(true, "sh: kaipump: not found"));
    assert!(!key_needs_pump(true, ""));
    assert_eq!(brightness(" 102\n"), 102);
    assert_eq!(brightness("+7"), 7);
    assert_eq!(brightness("-2147483648"), i32::MIN);
    assert_eq!(brightness("2147483648"), 0);
    assert_eq!(brightness("-+1"), 0);
    assert_eq!(brightness("No such file"), 0);
    assert_eq!(wake_line(102), "backlight=102");
    assert_eq!(wake_line(0), "backlight=0  (still off -- press power manually)");
    assert_eq!(wake_line(-1), "backlight=-1");
}

#[test]
fn the_commands_that_are_sent() {
    assert_eq!(
        send_key("power").ok().unwrap(),
        ["shell", "/data/local/tmp/kaipump", "key", "0", "116"]
    );
    let e = send_key("no\"key").err().unwrap();
    assert!(e.message().starts_with("unknown key \"no\\\"key\"; known: 0, 1, 2, "));
    assert!(e.message().ends_with(", VOLUMEDOWN, VOLUMEUP"));
    assert!(e.describe("?").starts_with("unknown key ?; known: "));
    assert_eq!(
        start_stream(1, true, 0, 30),
        ["exec-out", "/data/local/tmp/kaipump", "5000", "1", "png", "1", "0", "ipc", "30"]
    );
    assert_eq!(start_stream(0, false, 1, 5)[4..7], ["raw", "1", "1"]);
}

#[test]
fn an_input_event_is_sixteen_bytes() {
    assert_eq!(
        input_event(1, 523, 1),
        [0, 0, 0, 0, 0, 0, 0, 0, 1, 0, 0x0b, 0x02, 1, 0, 0, 0]
    );
    assert_eq!(input_event(0x1234, 0xffff, -2)[8..], [0x34, 0x12, 0xff, 0xff, 0xfe, 0xff, 0xff, 0xff]);
    let down = key_report(48, true);
    assert_eq!(down.len(), 32);
    assert_eq!(down[8..16], [1, 0, 48, 0, 1, 0, 0, 0]);
    assert_eq!(down[16..], [0; 16]);
    assert_eq!(key_report(48, false)[8..16], [1, 0, 48, 0, 0, 0, 0, 0]);
}

#[test]
fn the_lines_of_the_control_channel() {
    let press = |node, code, hold_ms| Some(KeyPress { node, code, hold_ms });
    assert_eq!(control_line("1 523"), press(1, 523, 50));
    assert_eq!(control_line("  0\t116 1000 x\n"), press(0, 116, 1000));
    assert_eq!(control_line("1 2 soon"), press(1, 2, 50));
    assert_eq!(control_line("\u{2003}1\u{a0}2"), press(1, 2, 50));
    for bad in ["", "1", "x 2", "1 x", "1 65536", "4294967296 1", "-1 2"] {
        assert_eq!(control_line(bad), None, "{bad:?}");
    }
}

/// The numbers that were seen on the wire.
#[test]
fn a_request_is_padded_to_whole_words() {
    let long = screencap_request(0, b"/data/local/tmp/capture1.png");
    assert_eq!((28, long.len()), ("/data/local/tmp/capture1.png".len(), 48));
    let short = screencap_request(0, b"/data/local/tmp/a.png");
    assert_eq!((21, short.len()), ("/data/local/tmp/a.png".len(), 40));
    assert_eq!(long[..16], [4, 0, 0, 0, 1, 0, 0, 0, 2, 0, 0, 0, 0, 0, 0, 0]);
    assert_eq!(long[16..44], *b"/data/local/tmp/capture1.png");
    assert_eq!(long[44..], [0; 4]);
    let other = screencap_request(1, b"/data/local/tmp/capture1.png");
    let differ: Vec<usize> = (0..48).filter(|&i| long[i] != other[i]).collect();
    assert_eq!(differ, [12]);
    assert_eq!(screencap_request(0, b"abc").len(), 20);
}

fn told(line: &str) -> Order {
    order(&line.split_whitespace().map(String::from).collect())
}

#[test]
fn what_a_pump_is_told() {
    assert!(matches!(told("probe"), Order::Probe));
    assert!(matches!(told("control"), Order::Control));
    match told("key 0 116 7") {
        Order::Key(k) => assert_eq!(k, KeyPress { node: 0, code: 116, hold_ms: 7 }),
        _ => panic!("a key"),
    }
    match told("key") {
        Order::Key(k) => assert_eq!(k, KeyPress { node: 1, code: 0, hold_ms: 50 }),
        _ => panic!("a key"),
    }
    match told("") {
        Order::Run(s) => {
            assert_eq!((s.delay_us, s.display, s.png, s.guard), (5000, 0, false, true));
            assert_eq!((s.limit, s.backend, s.max_fps, s.tag), (None, Backend::Ipc, 30, None));
        }
        _ => panic!("a run"),
    }
    match told("100 1 png 0 12 exec 0 grab") {
        Order::Run(s) => {
            assert_eq!((s.delay_us, s.display, s.png, s.guard), (100, 1, true, false));
            assert_eq!((s.limit, s.backend, s.max_fps), (Some(12), Backend::Exec, 0));
            assert_eq!(s.tag.as_deref(), Some("grab"));
        }
        _ => panic!("a run"),
    }
    match told("x x x x 0 x x") {
        Order::Run(s) => {
            assert_eq!((s.delay_us, s.display, s.png, s.guard), (5000, 0, false, true));
            assert_eq!((s.limit, s.backend, s.max_fps), (None, Backend::Ipc, 30));
        }
        _ => panic!("a run"),
    }
}

#[test]
fn the_files_a_pump_uses() {
    assert_eq!(written_path("42", false), "/data/local/tmp/.kaimirror_w42.raw");
    assert_eq!(staged_path("42", true), "/data/local/tmp/.kaimirror_r42.png");
    // No two of them are one file.
    let all: Vec<String> = ["1", "12", "2"]
        .iter()
        .flat_map(|t| [written_path(t, true), written_path(t, false), staged_path(t, true)])
        .collect();
    for (i, a) in all.iter().enumerate() {
        for b in &all[..i] {
            assert_ne!(a, b);
        }
    }
}

#[test]
fn requests_keep_to_the_cap() {
    assert_eq!(pause_before(30, None), 0);
    assert_eq!(pause_before(30, Some(0)), 33_333_000);
    assert_eq!(pause_before(30, Some(33_000_000)), 333_000);
    assert_eq!(pause_before(30, Some(33_333_000)), 0);
    assert_eq!(pause_before(0, Some(0)), 0);
    assert_eq!(pause_before(2_000_000, Some(0)), 0);
}

#[test]
fn a_frame_is_complete_at_its_size() {
    let (mut known, first) = Settling::new(Some(100));
    assert_eq!(first, Settle::Look);
    assert_eq!(known.size(60), Settle::Sleep);
    assert_eq!(known.size(60), Settle::Sleep);
    assert_eq!(known.size(100), Settle::Done(100));

    let (mut learn, first) = Settling::new(None);
    assert_eq!(first, Settle::Sleep);
    let sizes = [0, 0, 50, 100, 100];
    let seen: Vec<Settle> = sizes.iter().map(|&n| learn.size(n)).collect();
    assert_eq!(
        seen,
        [Settle::Sleep, Settle::Sleep, Settle::Sleep, Settle::Sleep, Settle::Done(100)]
    );
    assert!(png_complete(b"IEND\xae\x42\x60\x82"));
    assert!(!png_complete(b"IEND\xae\x42\x60\x83"));
    assert!(!png_complete(b"IEND"));
}

fn duties(guard: bool, limit: Option<u64>, went: &[Went]) -> (Vec<Duty>, String) {
    let mut r = Runner::new(guard, limit);
    let mut seen = vec![r.duty()];
    for w in went {
        r.done(*w);
        seen.push(r.duty());
    }
    (seen, r.stats())
}

#[test]
fn the_order_in_which_a_pump_works() {
    let (seen, stats) = duties(false, Some(1), &[Went::Well; 7]);
    assert_eq!(
        seen,
        [
            Duty::Capture,
            Duty::Settle,
            Duty::Stage,
            Duty::Capture,
            Duty::Ship,
            Duty::Stage,
            Duty::Stop,
            Duty::Stop
        ]
    );
    assert_eq!(stats, "captures=2 shipped=1 restage_failed=0\n");
    let (seen, stats) = duties(
        true,
        None,
        &[Went::Well, Went::Well, Went::Badly, Went::Well, Went::Nothing, Went::Well, Went::Badly, Went::Well, Went::Badly],
    );
    assert_eq!(
        seen,
        [
            Duty::Capture,
            Duty::Settle,
            Duty::Stage,
            Duty::Capture,
            Duty::Ship,
            Duty::Settle,
            Duty::Stage,
            Duty::Capture,
            Duty::Ship,
            Duty::Stop
        ]
    );
    assert_eq!(stats, "captures=3 shipped=1 restage_failed=2\n");
    assert_eq!(duties(true, None, &[Went::Badly]).0, [Duty::Capture, Duty::Stop]);
}

#[test]
fn the_lines_of_a_probe() {
    assert_eq!(hex_text(&[0, 0x0f, 0xa5, 0xff]), "000fa5ff");
    assert_eq!(request_line(&[4, 0]), "request        2 bytes: 0400");
    assert_eq!(kernel_line(" Linux 4.9 \nmore"), "kernel         Linux 4.9");
    assert_eq!(kernel_line(""), "kernel         ?");
    assert_eq!(kernel_line("\nx"), "kernel         ");
    assert_eq!(client_line(&vec![]), "gfxdebugger    <not found>");
    assert_eq!(
        client_line(&vec!["/a/g".to_string(), "/b/g".to_string()]),
        "gfxdebugger    /a/g /b/g"
    );
}
