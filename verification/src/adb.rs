//! Talking to the phone through adb: what is asked of it, and what its answers
//! mean.
use vstd::prelude::*;
use vstd::utf8::is_ascii_chars;
use crate::keys::{ascii_upper, lookup, named, names, sorted_names, texts, uppercased};
use crate::text::{
    chars_of, debug_text, debugged, decimal, join, joined, no_words, push_string, push_word,
    same_text, string_of, strings, to_decimal,
};
use crate::words::{
    contains, holds, parse_signed, pieces, signed, split_pieces, split_words, trim, trimmed,
    words_of,
};

verus! {

/// Where the pump is installed on the phone.
pub const REMOTE_PUMP: &'static str = "/data/local/tmp/kaipump";

/// What a pump leaves behind.
pub const REMOTE_STAGING: &'static str =
    "/data/local/tmp/.kaimirror_* /data/local/tmp/kaipump.stats";

/// Reaps pumps, each with its whole process group: one can be stuck in a write
/// to a half-open socket, where a signal to it alone does nothing.  The
/// bracketed letter keeps the pattern from matching the shell that runs this,
/// and the comparison of groups keeps that shell from killing its own session.
pub const PUMP_SWEEP: &'static str =
    "me=$(cut -d\" \" -f5 /proc/$$/stat); for p in $(pgrep -f \"kaipum[p]\"); do g=$(cut -d\" \" -f5 /proc/$p/stat 2>/dev/null); [ -n \"$g\" ] && [ \"$g\" != \"$me\" ] && kill -9 -\"$g\" 2>/dev/null; done; true";

/// Asks for the state of the panel's backlight.
pub const BACKLIGHT: &'static str = "cat /sys/class/leds/lcd-backlight/brightness";

/// Whether a line of `adb devices` is one of a phone that is ready.
pub open spec fn is_device_line(line: Seq<char>) -> bool {
    let ws = words_of(line);
    ws.len() > 1 && ws[1] == "device"@
}

/// Whether `adb devices` lists a phone that is ready; its first line is a
/// heading.
pub open spec fn lists_device(out: Seq<char>) -> bool {
    let lines = pieces(out, '\n');
    exists|i: int| 1 <= i < lines.len() && is_device_line(#[trigger] lines[i])
}

/// Whether `adb devices` lists a phone that is ready.
pub fn device_attached(out: &str) -> (yes: bool)
    ensures
        yes == lists_device(out@),
{
    let chars = chars_of(out);
    let lines = split_pieces(chars.as_slice(), '\n');
    let ghost all = pieces(out@, '\n');
    proof {
        assert(all.len() == lines@.len());
    }
    let mut i: usize = 1;
    while i < lines.len()
        invariant
            1 <= i <= lines@.len(),
            all == strings(lines@),
            all == pieces(out@, '\n'),
            forall|k: int| 1 <= k < i ==> !is_device_line(#[trigger] all[k]),
        decreases lines@.len() - i,
    {
        let line = chars_of(lines[i].as_str());
        let ws = split_words(line.as_slice());
        proof {
            assert(all[i as int] == lines@[i as int]@);
            assert(words_of(line@).len() == ws@.len());
            if ws@.len() > 1 {
                assert(words_of(line@)[1] == ws@[1]@);
            }
        }
        if ws.len() > 1 && same_text(ws[1].as_str(), "device") {
            return true;
        }
        i = i + 1;
    }
    false
}

/// What is said where the phone could not be talked to as root, from what
/// `adb devices` lists.
pub fn diagnose_no_device(out: &str) -> (m: &'static str)
    ensures
        m@ == (if lists_device(out@) {
            "could not get adb root (needs a userdebug/ro.debuggable build)"@
        } else {
            "no device (check the cable; `adb devices` should list it)"@
        }),
{
    if device_attached(out) {
        "could not get adb root (needs a userdebug/ro.debuggable build)"
    } else {
        "no device (check the cable; `adb devices` should list it)"
    }
}

/// Whether the output of `id` is root's.
pub fn is_root(id: &str) -> (yes: bool)
    ensures
        yes == holds(id@, "uid=0"@),
{
    contains(id, "uid=0")
}

/// Whether the phone has a pump of this size already.  A rebuild effectively
/// always changes the size.
pub fn pump_is_current(remote: &str, size: u64) -> (yes: bool)
    ensures
        yes == (trimmed(remote@) == decimal(size as nat)),
{
    let chars = chars_of(remote);
    let t = trim(chars.as_slice());
    let n: usize = t.len();
    let have = string_of(t.as_slice(), 0, n);
    let want = to_decimal(size);
    proof {
        assert(t@.subrange(0, n as int) =~= t@);
    }
    same_text(have.as_str(), want.as_str())
}

/// The command that presses a key.
pub open spec fn key_command(key: (u32, u16)) -> Seq<Seq<char>> {
    seq!["shell"@, REMOTE_PUMP@, "key"@, decimal(key.0 as nat), decimal(key.1 as nat)]
}

/// There is no key of that name.
pub struct UnknownKey {
    pub name: String,
}

impl UnknownKey {
    /// What is said of it, given how the name is shown.
    pub fn describe(&self, shown: &str) -> (m: String)
        ensures
            m@ == "unknown key "@ + shown@ + "; known: "@ + joined(sorted_names(), ", "@),
    {
        let mut m = String::new();
        m.append("unknown key ");
        m.append(shown);
        m.append("; known: ");
        let all = names();
        let mut words = no_words();
        let mut i: usize = 0;
        let ghost ns = texts(all@);
        proof {
            assert(strings(words@) =~= ns.subrange(0, 0));
        }
        while i < all.len()
            invariant
                i <= all@.len(),
                ns == texts(all@),
                strings(words@) == ns.subrange(0, i as int),
            decreases all@.len() - i,
        {
            push_word(&mut words, all[i]);
            i = i + 1;
            proof {
                assert(strings(words@) =~= ns.subrange(0, i as int));
            }
        }
        proof {
            assert(ns.subrange(0, ns.len() as int) =~= ns);
        }
        let list = join(&words, ", ");
        m.append(list.as_str());
        proof {
            assert(m@ =~= "unknown key "@ + shown@ + "; known: "@ + joined(sorted_names(), ", "@));
        }
        m
    }

    pub fn message(&self) -> (m: String)
        ensures
            m@ == "unknown key "@ + debugged(self.name@) + "; known: "@ + joined(
                sorted_names(),
                ", "@,
            ),
    {
        let shown = debug_text(self.name.as_str());
        self.describe(shown.as_str())
    }
}

/// The adb command that injects one press of the key called `name`.
pub fn send_key(name: &str) -> (cmd: Result<Vec<String>, UnknownKey>)
    ensures
        match cmd {
            Ok(args) => named(uppercased(name@)) matches Some(key) && strings(args@)
                == key_command(key),
            Err(e) => named(uppercased(name@)) is None && e.name@ == name@,
        },
        is_ascii_chars(name@) ==> (cmd is Ok) == (named(ascii_upper(name@)) is Some),
        is_ascii_chars(name@) ==> (cmd matches Ok(args) ==> strings(args@) == key_command(
            named(ascii_upper(name@))->0,
        )),
{
    let (node, code) = match lookup(name) {
        Some(key) => key,
        None => return Err(UnknownKey { name: name.to_string() }),
    };
    let mut args = no_words();
    push_word(&mut args, "shell");
    push_word(&mut args, REMOTE_PUMP);
    push_word(&mut args, "key");
    push_string(&mut args, to_decimal(node as u64));
    push_string(&mut args, to_decimal(code as u64));
    proof {
        assert(strings(args@) =~= key_command((node, code)));
    }
    Ok(args)
}

/// Whether the pump turned out not to be installed when a key was sent: that
/// is found out afterwards, since it almost always is.
pub fn key_needs_pump(success: bool, stderr: &str) -> (yes: bool)
    ensures
        yes == (!success || holds(stderr@, "not found"@)),
{
    !success || contains(stderr, "not found")
}

/// How bright the panel's backlight is, 0 where that cannot be read.
pub open spec fn backlight(out: Seq<char>) -> int {
    match signed(trimmed(out)) {
        Some(n) => n,
        None => 0,
    }
}

/// How bright the panel's backlight is, 0 where that cannot be read.
pub fn brightness(out: &str) -> (b: i32)
    ensures
        b as int == backlight(out@),
{
    let chars = chars_of(out);
    let t = trim(chars.as_slice());
    match parse_signed(t.as_slice()) {
        Some(n) => n,
        None => 0,
    }
}

/// What is printed of the backlight after a wake.
pub fn wake_line(b: i32) -> (line: String)
    ensures
        b >= 0 ==> line@ == "backlight="@ + decimal(b as nat) + (if b == 0 {
            "  (still off -- press power manually)"@
        } else {
            ""@
        }),
        b < 0 ==> line@ == "backlight=-"@ + decimal((-b) as nat),
{
    let mut line = String::new();
    if b >= 0 {
        line.append("backlight=");
        line.append(to_decimal(b as u64).as_str());
        if b == 0 {
            line.append("  (still off -- press power manually)");
        }
        proof {
            reveal_strlit("");
            assert(""@ =~= seq![]);
            assert(line@ =~= "backlight="@ + decimal(b as nat) + (if b == 0 {
                "  (still off -- press power manually)"@
            } else {
                ""@
            }));
        }
    } else {
        line.append("backlight=-");
        line.append(to_decimal((0 - b as i64) as u64).as_str());
        proof {
            assert(line@ =~= "backlight=-"@ + decimal((-b) as nat));
        }
    }
    line
}

/// The pump's command line for a stream: the delay between looks at a file, the
/// display, the format, guarded, how many frames (0 for no end), over the
/// socket, and at most so many a second.
pub open spec fn stream_command(display: u32, png: bool, limit: u64, fps: u32) -> Seq<Seq<char>> {
    seq![
        "exec-out"@,
        REMOTE_PUMP@,
        "5000"@,
        decimal(display as nat),
        if png {
            "png"@
        } else {
            "raw"@
        },
        "1"@,
        decimal(limit as nat),
        "ipc"@,
        decimal(fps as nat),
    ]
}

/// The adb command that starts a stream of frames.
pub fn start_stream(display: u32, png: bool, limit: u64, fps: u32) -> (args: Vec<String>)
    ensures
        strings(args@) == stream_command(display, png, limit, fps),
{
    let mut args = no_words();
    push_word(&mut args, "exec-out");
    push_word(&mut args, REMOTE_PUMP);
    push_word(&mut args, "5000");
    push_string(&mut args, to_decimal(display as u64));
    if png {
        push_word(&mut args, "png");
    } else {
        push_word(&mut args, "raw");
    }
    push_word(&mut args, "1");
    push_string(&mut args, to_decimal(limit));
    push_word(&mut args, "ipc");
    push_string(&mut args, to_decimal(fps as u64));
    proof {
        assert(strings(args@) =~= stream_command(display, png, limit, fps));
    }
    args
}

} // verus!
