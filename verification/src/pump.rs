//! The device-side frame pump: what it is told, what it asks of the display
//! server, and the order in which it works.
//!
//! The display server writes a frame to a file when it is asked to over its
//! socket.  It takes the format from the file's extension: `.png` gets a PNG,
//! anything else an uncompressed RGB565 dump behind a header of sixteen bytes.
//! Frames go out back to back with no length in front.
use vstd::prelude::*;
use crate::agreement::lemma_le32;
use crate::json::{hex_char, hex_digit};
use crate::text::{
    chars_of, decimal, join, joined, law_decimal_reads_back, parse_unsigned, push_decimal,
    same_text, string_of, strings, unsigned,
};
use crate::words::{pieces, split_pieces, split_words, trim, trimmed, words_of};

verus! {

/// How long a key is held down, in milliseconds.
pub const KEY_HOLD_MS: u64 = 50;

pub const EV_SYN: u16 = 0;

pub const EV_KEY: u16 = 1;

/// Where the display server listens.
pub const IPC_SOCKET: &'static str = "/dev/socket/gfxdebugger-ipc";

/// Where the pump leaves its numbers: what it prints would land in the middle
/// of the frames.
pub const STATS_PATH: &'static str = "/data/local/tmp/kaipump.stats";

/// The two bytes of a number, the low one first.
pub open spec fn le16(n: int) -> Seq<u8> {
    seq![(n % 256) as u8, (n / 256 % 256) as u8]
}

/// The four bytes of a number, the low one first.
pub open spec fn le32(n: int) -> Seq<u8> {
    seq![
        (n % 256) as u8,
        (n / 256 % 256) as u8,
        (n / 65536 % 256) as u8,
        (n / 16777216 % 256) as u8,
    ]
}

/// One input event as the kernel takes it on 32-bit ARM: a time of eight bytes,
/// which the kernel fills in itself, then type, code and value.
pub open spec fn event_bytes(kind: u16, code: u16, value: i32) -> Seq<u8> {
    seq![0u8, 0u8, 0u8, 0u8, 0u8, 0u8, 0u8, 0u8] + le16(kind as int) + le16(code as int) + le32(
        (value as int) % 0x1_0000_0000,
    )
}

/// One input event as the kernel takes it on 32-bit ARM.
pub fn input_event(kind: u16, code: u16, value: i32) -> (e: [u8; 16])
    ensures
        e@ == event_bytes(kind, code, value),
{
    let v: u64 = if value < 0 {
        (value as i64 + 0x1_0000_0000) as u64
    } else {
        value as u64
    };
    let e: [u8; 16] = [
        0,
        0,
        0,
        0,
        0,
        0,
        0,
        0,
        (kind % 256) as u8,
        (kind / 256 % 256) as u8,
        (code % 256) as u8,
        (code / 256 % 256) as u8,
        (v % 256) as u8,
        (v / 256 % 256) as u8,
        (v / 65536 % 256) as u8,
        (v / 16777216 % 256) as u8,
    ];
    proof {
        assert(e@ =~= event_bytes(kind, code, value));
    }
    e
}

/// What is written to a node to move a key: the event of the key, and the one
/// that ends a report.
pub open spec fn key_bytes(code: u16, down: bool) -> Seq<u8> {
    event_bytes(
        EV_KEY,
        code,
        if down {
            1
        } else {
            0
        },
    ) + event_bytes(EV_SYN, 0, 0)
}

/// What is written to a node to move a key.
pub fn key_report(code: u16, down: bool) -> (bytes: Vec<u8>)
    ensures
        bytes@ == key_bytes(code, down),
{
    let mut bytes: Vec<u8> = Vec::new();
    let value: i32 = if down {
        1
    } else {
        0
    };
    let key = input_event(EV_KEY, code, value);
    let syn = input_event(EV_SYN, 0, 0);
    bytes.extend_from_slice(key.as_slice());
    bytes.extend_from_slice(syn.as_slice());
    proof {
        assert(bytes@ =~= key_bytes(code, down));
    }
    bytes
}

/// A number that a word stands for, if it is at most `max`.
pub open spec fn number_up_to(w: Seq<char>, max: nat) -> Option<nat> {
    match unsigned(w) {
        Some(n) => if n <= max {
            Some(n)
        } else {
            None
        },
        None => None,
    }
}

fn number(w: &str, max: u64) -> (n: Option<u64>)
    ensures
        match n {
            Some(v) => number_up_to(w@, max as nat) == Some(v as nat) && v <= max,
            None => number_up_to(w@, max as nat) is None,
        },
{
    let chars = chars_of(w);
    parse_unsigned(chars.as_slice(), max)
}

/// A key to press: its node, its code, and for how long.
#[derive(PartialEq, Eq, Structural, Clone, Copy, Debug)]
pub struct KeyPress {
    pub node: u32,
    pub code: u16,
    pub hold_ms: u64,
}

/// What a line of the control channel asks for: a node and a code, and how long
/// to hold the key where the line says so in a number.  Any other line asks for
/// nothing.
pub open spec fn pressed_by(line: Seq<char>) -> Option<KeyPress> {
    let ws = words_of(line);
    if ws.len() < 2 {
        None
    } else {
        match (
            number_up_to(ws[0], u32::MAX as nat),
            number_up_to(ws[1], u16::MAX as nat),
        ) {
            (Some(node), Some(code)) => Some(
                KeyPress {
                    node: node as u32,
                    code: code as u16,
                    hold_ms: if ws.len() > 2 {
                        match number_up_to(ws[2], u64::MAX as nat) {
                            Some(n) => n as u64,
                            None => KEY_HOLD_MS,
                        }
                    } else {
                        KEY_HOLD_MS
                    },
                },
            ),
            _ => None,
        }
    }
}

/// What a line of the control channel asks for.
pub fn control_line(line: &str) -> (press: Option<KeyPress>)
    ensures
        press == pressed_by(line@),
{
    let chars = chars_of(line);
    let ws = split_words(chars.as_slice());
    let ghost all = words_of(line@);
    proof {
        assert(all.len() == ws@.len());
        assert forall|i: int| 0 <= i < all.len() implies all[i] == #[trigger] ws@[i]@ by {}
    }
    if ws.len() < 2 {
        return None;
    }
    let node: u32 = match number(ws[0].as_str(), u32::MAX as u64) {
        Some(n) => n as u32,
        None => return None,
    };
    let code: u16 = match number(ws[1].as_str(), u16::MAX as u64) {
        Some(n) => n as u16,
        None => return None,
    };
    let hold_ms: u64 = if ws.len() > 2 {
        match number(ws[2].as_str(), u64::MAX) {
            Some(n) => n,
            None => KEY_HOLD_MS,
        }
    } else {
        KEY_HOLD_MS
    };
    Some(KeyPress { node, code, hold_ms })
}

/// How many bytes of nothing fill `n` up to a multiple of four.
pub open spec fn padding(n: nat) -> int {
    (4 - n % 4) % 4
}

/// The request for a frame: four words, of which only the display varies, then
/// the path of the file, a zero, and zeros up to a multiple of four bytes.
pub open spec fn request_bytes(display: u32, path: Seq<u8>) -> Seq<u8> {
    le32(4) + le32(1) + le32(2) + le32(display as int) + path + Seq::new(
        (1 + padding(path.len() + 1)) as nat,
        |i: int| 0u8,
    )
}

fn push_word32(m: &mut Vec<u8>, n: u32)
    ensures
        final(m)@ == old(m)@ + le32(n as int),
{
    m.push((n % 256) as u8);
    m.push((n / 256 % 256) as u8);
    m.push((n / 65536 % 256) as u8);
    m.push((n / 16777216 % 256) as u8);
    proof {
        assert(m@ =~= old(m)@ + le32(n as int));
    }
}

proof fn lemma_padding(n: nat, zeros: int)
    requires
        1 <= zeros <= 1 + padding(n + 1),
    ensures
        padding(n + 1) <= 3,
        (16 + n + zeros) % 4 == 0 <==> zeros == 1 + padding(n + 1),
{
}

/// The request for a frame.
pub fn screencap_request(display: u32, path: &[u8]) -> (m: Vec<u8>)
    ensures
        m@ == request_bytes(display, path@),
{
    let mut m: Vec<u8> = Vec::new();
    push_word32(&mut m, 4);
    push_word32(&mut m, 1);
    push_word32(&mut m, 2);
    push_word32(&mut m, display);
    m.extend_from_slice(path);
    let ghost head = le32(4) + le32(1) + le32(2) + le32(display as int) + path@;
    proof {
        assert(m@ =~= head);
        assert(head.len() == 16 + path@.len());
    }
    m.push(0);
    let mut zeros: usize = 1;
    proof {
        assert(m@ =~= head + Seq::new(1, |i: int| 0u8));
    }
    while m.len() % 4 != 0
        invariant
            1 <= zeros <= 1 + padding(path@.len() + 1),
            head.len() == 16 + path@.len(),
            m@ == head + Seq::new(zeros as nat, |i: int| 0u8),
        decreases 5 - zeros,
    {
        proof {
            assert(m@.len() == 16 + path@.len() + zeros);
            lemma_padding(path@.len(), zeros as int);
        }
        m.push(0);
        zeros = zeros + 1;
        proof {
            assert(m@ =~= head + Seq::new(zeros as nat, |i: int| 0u8));
        }
    }
    proof {
        assert(m@.len() == 16 + path@.len() + zeros);
        lemma_padding(path@.len(), zeros as int);
        assert(zeros == 1 + padding(path@.len() + 1));
        assert(m@ =~= request_bytes(display, path@));
    }
    m
}

/// A request is a whole number of words, with at least one zero behind the
/// path and no more than needed.
pub proof fn law_requests_are_whole_words(display: u32, path: Seq<u8>)
    ensures
        request_bytes(display, path).len() % 4 == 0,
        17 + path.len() <= request_bytes(display, path).len() <= 20 + path.len(),
{
}

/// The display changes the fourth word of a request and nothing else.
pub proof fn law_the_display_is_one_word(a: u32, b: u32, path: Seq<u8>, i: int)
    requires
        0 <= i < request_bytes(a, path).len(),
        !(12 <= i < 16),
    ensures
        request_bytes(a, path).len() == request_bytes(b, path).len(),
        request_bytes(a, path)[i] == request_bytes(b, path)[i],
{
}

/// How a frame is asked for.
#[derive(PartialEq, Eq, Structural, Clone, Copy, Debug)]
pub enum Backend {
    /// Over the display server's socket.
    Ipc,
    /// By running its client, once for each frame.
    Exec,
}

/// How a pump is to run.
pub struct Settings {
    /// The pause between two looks at a file, in microseconds.
    pub delay_us: u64,
    pub display: u32,
    pub png: bool,
    /// Whether every frame is waited for, and not only the first.
    pub guard: bool,
    /// How many frames to ship, without an end where there is none.
    pub limit: Option<u64>,
    pub backend: Backend,
    /// The cap on the rate; 0 for none.
    pub max_fps: u32,
    /// What keeps its files apart from those of other pumps.
    pub tag: Option<String>,
}

/// What a pump is told to do.
pub enum Order {
    Probe,
    Control,
    Key(KeyPress),
    Run(Settings),
}

/// The same as contracts speak of it.
pub struct Setup {
    pub delay_us: u64,
    pub display: u32,
    pub png: bool,
    pub guard: bool,
    pub limit: Option<u64>,
    pub backend: Backend,
    pub max_fps: u32,
    pub tag: Option<Seq<char>>,
}

pub enum Told {
    Probe,
    Control,
    Key(KeyPress),
    Run(Setup),
}

impl View for Settings {
    type V = Setup;

    open spec fn view(&self) -> Setup {
        Setup {
            delay_us: self.delay_us,
            display: self.display,
            png: self.png,
            guard: self.guard,
            limit: self.limit,
            backend: self.backend,
            max_fps: self.max_fps,
            tag: match self.tag {
                Some(t) => Some(t@),
                None => None,
            },
        }
    }
}

impl View for Order {
    type V = Told;

    open spec fn view(&self) -> Told {
        match *self {
            Order::Probe => Told::Probe,
            Order::Control => Told::Control,
            Order::Key(k) => Told::Key(k),
            Order::Run(s) => Told::Run(s@),
        }
    }
}

/// The number at a place of a command line, or what stands for it where there
/// is none that fits.
pub open spec fn number_at(args: Seq<Seq<char>>, i: int, max: nat, default: nat) -> nat {
    if i < args.len() {
        match number_up_to(args[i], max) {
            Some(n) => n,
            None => default,
        }
    } else {
        default
    }
}

pub open spec fn word_at(args: Seq<Seq<char>>, i: int, default: Seq<char>) -> Seq<char> {
    if i < args.len() {
        args[i]
    } else {
        default
    }
}

/// What a command line tells a pump to do.
pub open spec fn told(args: Seq<Seq<char>>) -> Told {
    if args.len() > 0 && args[0] == "probe"@ {
        Told::Probe
    } else if args.len() > 0 && args[0] == "control"@ {
        Told::Control
    } else if args.len() > 0 && args[0] == "key"@ {
        Told::Key(
            KeyPress {
                node: number_at(args, 1, u32::MAX as nat, 1) as u32,
                code: number_at(args, 2, u16::MAX as nat, 0) as u16,
                hold_ms: number_at(args, 3, u64::MAX as nat, KEY_HOLD_MS as nat) as u64,
            },
        )
    } else {
        let limit = number_at(args, 4, u64::MAX as nat, 0);
        Told::Run(
            Setup {
                delay_us: number_at(args, 0, u64::MAX as nat, 5000) as u64,
                display: number_at(args, 1, u32::MAX as nat, 0) as u32,
                png: word_at(args, 2, "raw"@) == "png"@,
                guard: word_at(args, 3, "1"@) != "0"@,
                limit: if limit > 0 {
                    Some(limit as u64)
                } else {
                    None
                },
                backend: if word_at(args, 5, "ipc"@) == "exec"@ {
                    Backend::Exec
                } else {
                    Backend::Ipc
                },
                max_fps: number_at(args, 6, u32::MAX as nat, 30) as u32,
                tag: if args.len() > 7 {
                    Some(args[7])
                } else {
                    None
                },
            },
        )
    }
}

fn number_arg(args: &Vec<String>, i: usize, max: u64, default: u64) -> (n: u64)
    requires
        default <= max,
    ensures
        n as nat == number_at(strings(args@), i as int, max as nat, default as nat),
        n <= max,
{
    if i < args.len() {
        proof {
            assert(strings(args@)[i as int] == args@[i as int]@);
        }
        match number(args[i].as_str(), max) {
            Some(n) => n,
            None => default,
        }
    } else {
        default
    }
}

fn arg_is(args: &Vec<String>, i: usize, default: &str, word: &str) -> (yes: bool)
    ensures
        yes == (word_at(strings(args@), i as int, default@) == word@),
{
    if i < args.len() {
        proof {
            assert(strings(args@)[i as int] == args@[i as int]@);
        }
        same_text(args[i].as_str(), word)
    } else {
        same_text(default, word)
    }
}

/// What a command line tells a pump to do.
pub fn order(args: &Vec<String>) -> (o: Order)
    ensures
        o@ == told(strings(args@)),
{
    let ghost all = strings(args@);
    proof {
        assert(all.len() == args@.len());
        assert forall|i: int| 0 <= i < all.len() implies #[trigger] all[i] == args@[i]@ by {}
    }
    if args.len() > 0 {
        let first = args[0].as_str();
        if same_text(first, "probe") {
            return Order::Probe;
        }
        if same_text(first, "control") {
            return Order::Control;
        }
        if same_text(first, "key") {
            return Order::Key(
                KeyPress {
                    node: number_arg(args, 1, u32::MAX as u64, 1) as u32,
                    code: number_arg(args, 2, u16::MAX as u64, 0) as u16,
                    hold_ms: number_arg(args, 3, u64::MAX, KEY_HOLD_MS),
                },
            );
        }
    }
    let limit: u64 = number_arg(args, 4, u64::MAX, 0);
    let tag = if args.len() > 7 {
        Some(args[7].as_str().to_string())
    } else {
        None
    };
    Order::Run(
        Settings {
            delay_us: number_arg(args, 0, u64::MAX, 5000),
            display: number_arg(args, 1, u32::MAX as u64, 0) as u32,
            png: arg_is(args, 2, "raw", "png"),
            guard: !arg_is(args, 3, "1", "0"),
            limit: if limit > 0 {
                Some(limit)
            } else {
                None
            },
            backend: if arg_is(args, 5, "ipc", "exec") {
                Backend::Exec
            } else {
                Backend::Ipc
            },
            max_fps: number_arg(args, 6, u32::MAX as u64, 30) as u32,
            tag,
        },
    )
}

/// The path of a staging file: the one the display server writes, or the one it
/// is put aside as.
pub open spec fn staging(side: Seq<char>, tag: Seq<char>, png: bool) -> Seq<char> {
    "/data/local/tmp/.kaimirror_"@ + side + tag + (if png {
        ".png"@
    } else {
        ".raw"@
    })
}

proof fn lemma_staging_length(side: Seq<char>, tag: Seq<char>, png: bool)
    requires
        side.len() == 1,
    ensures
        staging(side, tag, png).len() == 32 + tag.len(),
        staging(side, tag, png).subrange(0, 27) == "/data/local/tmp/.kaimirror_"@,
        staging(side, tag, png)[27] == side[0],
        staging(side, tag, png).subrange(28, 28 + tag.len() as int) == tag,
{
    reveal_strlit("/data/local/tmp/.kaimirror_");
    reveal_strlit(".png");
    reveal_strlit(".raw");
    let s = staging(side, tag, png);
    assert(s.subrange(0, 27) =~= "/data/local/tmp/.kaimirror_"@);
    assert(s.subrange(28, 28 + tag.len() as int) =~= tag);
}

/// Two pumps of different tags never share a file, whatever their formats; nor
/// do the two files of one pump; and all of them are where they are swept from.
pub proof fn law_pumps_share_no_file(tag: Seq<char>, other: Seq<char>, png: bool, other_png: bool)
    ensures
        tag != other ==> staging("w"@, tag, png) != staging("w"@, other, other_png),
        tag != other ==> staging("r"@, tag, png) != staging("r"@, other, other_png),
        staging("w"@, tag, png) != staging("r"@, other, other_png),
        staging("w"@, tag, png).subrange(0, 27) == "/data/local/tmp/.kaimirror_"@,
        staging("r"@, tag, png).subrange(0, 27) == "/data/local/tmp/.kaimirror_"@,
{
    reveal_strlit("w");
    reveal_strlit("r");
    assert("w"@[0] == 'w' && "r"@[0] == 'r');
    lemma_staging_length("w"@, tag, png);
    lemma_staging_length("w"@, other, other_png);
    lemma_staging_length("r"@, tag, png);
    lemma_staging_length("r"@, other, other_png);
}

fn staging_path(side: &str, tag: &str, png: bool) -> (path: String)
    ensures
        path@ == staging(side@, tag@, png),
{
    let mut path = String::new();
    path.append("/data/local/tmp/.kaimirror_");
    path.append(side);
    path.append(tag);
    if png {
        path.append(".png");
    } else {
        path.append(".raw");
    }
    proof {
        assert(path@ =~= staging(side@, tag@, png));
    }
    path
}

/// The file that the display server writes.
pub fn written_path(tag: &str, png: bool) -> (path: String)
    ensures
        path@ == staging("w"@, tag@, png),
{
    staging_path("w", tag, png)
}

/// The file that a frame is put aside as before it is shipped, so that a late
/// write never cuts off what is being sent.
pub fn staged_path(tag: &str, png: bool) -> (path: String)
    ensures
        path@ == staging("r"@, tag@, png),
{
    staging_path("r", tag, png)
}

/// The least time between two requests, in nanoseconds, for a cap on the rate.
pub open spec fn interval(max_fps: u32) -> Option<int> {
    if max_fps > 0 {
        Some(1_000_000int / (max_fps as int) * 1000)
    } else {
        None
    }
}

/// How long to wait before the next request, in nanoseconds, when the last one
/// is this long ago.
pub open spec fn wait_for(max_fps: u32, since: Option<u64>) -> int {
    match (interval(max_fps), since) {
        (Some(gap), Some(passed)) => if passed < gap {
            gap - passed
        } else {
            0
        },
        _ => 0,
    }
}

/// How long to wait before the next request, in nanoseconds.  Without a cap the
/// pump outruns everything it feeds.
pub fn pause_before(max_fps: u32, since: Option<u64>) -> (ns: u64)
    ensures
        ns as int == wait_for(max_fps, since),
{
    if max_fps == 0 {
        return 0;
    }
    let gap: u64 = 1_000_000 / (max_fps as u64) * 1000;
    match since {
        Some(passed) => if passed < gap {
            gap - passed
        } else {
            0
        },
        None => 0,
    }
}

/// Requests are never closer together than the cap allows.
pub proof fn law_the_cap_holds(max_fps: u32, since: u64)
    requires
        max_fps > 0,
    ensures
        since + wait_for(max_fps, Some(since)) >= interval(max_fps)->0,
{
}

/// What to do while a raw frame is still being written.
#[derive(PartialEq, Eq, Structural, Clone, Copy, Debug)]
pub enum Settle {
    /// Look at the size of the file.
    Look,
    /// Wait a little, and then look.
    Sleep,
    /// The frame is complete, and this is its size.
    Done(u64),
}

/// How a raw frame is found to be complete: by the size of the frames before
/// it, or, of the first one, by a size that stops changing.
pub struct Settling {
    known: Option<u64>,
    last: u64,
}

/// The same as contracts speak of it.
pub struct Watch {
    pub known: Option<u64>,
    pub last: u64,
}

impl View for Settling {
    type V = Watch;

    closed spec fn view(&self) -> Watch {
        Watch { known: self.known, last: self.last }
    }
}

/// What the size of the file says.
pub open spec fn sized(w: Watch, size: u64) -> (Watch, Settle) {
    match w.known {
        Some(want) => (
            w,
            if size == want {
                Settle::Done(want)
            } else {
                Settle::Sleep
            },
        ),
        None => (
            Watch { last: size, ..w },
            if size == 0 || size != w.last {
                Settle::Sleep
            } else {
                Settle::Done(size)
            },
        ),
    }
}

impl Settling {
    /// Begin to wait for a frame, of a size that is known or not, and what to
    /// do first.
    pub fn new(known: Option<u64>) -> (s: (Settling, Settle))
        ensures
            s.0@ == (Watch { known, last: 0 }),
            s.1 == (if known is Some {
                Settle::Look
            } else {
                Settle::Sleep
            }),
    {
        let first = match known {
            Some(_) => Settle::Look,
            None => Settle::Sleep,
        };
        (Settling { known, last: 0 }, first)
    }

    /// The size that the file has now, 0 where there is none.
    pub fn size(&mut self, size: u64) -> (next: Settle)
        ensures
            (final(self)@, next) == sized(old(self)@, size),
    {
        match self.known {
            Some(want) => if size == want {
                Settle::Done(want)
            } else {
                Settle::Sleep
            },
            None => {
                let before: u64 = self.last;
                self.last = size;
                if size == 0 || size != before {
                    Settle::Sleep
                } else {
                    Settle::Done(size)
                }
            },
        }
    }
}

/// The size of the first frame is taken only when two looks in a row have found
/// it, and is never zero.
pub proof fn law_a_learned_size_was_seen_twice(first: u64, second: u64, last: u64)
    ensures
        ({
            let w1 = sized(Watch { known: None, last }, first).0;
            sized(w1, second).1 matches Settle::Done(n) ==> n == first && n == second && n > 0
        }),
{
}

/// The end of a PNG file: the type and the check sum of its last chunk.
pub open spec fn png_tail() -> Seq<u8> {
    seq![0x49u8, 0x45u8, 0x4eu8, 0x44u8, 0xaeu8, 0x42u8, 0x60u8, 0x82u8]
}

/// Whether a PNG file with these last eight bytes is complete.
pub fn png_complete(tail: &[u8]) -> (yes: bool)
    ensures
        yes == (tail@ == png_tail()),
{
    if tail.len() != 8 {
        return false;
    }
    let yes = tail[0] == 0x49 && tail[1] == 0x45 && tail[2] == 0x4e && tail[3] == 0x44 && tail[4]
        == 0xae && tail[5] == 0x42 && tail[6] == 0x60 && tail[7] == 0x82;
    proof {
        if yes {
            assert(tail@ =~= png_tail());
        } else {
            let t = png_tail();
            assert(t[0] == 0x49 && t[1] == 0x45 && t[2] == 0x4e && t[3] == 0x44 && t[4] == 0xae
                && t[5] == 0x42 && t[6] == 0x60 && t[7] == 0x82);
        }
    }
    yes
}

/// What a running pump does next.
#[derive(PartialEq, Eq, Structural, Clone, Copy, Debug)]
pub enum Duty {
    /// Ask for a frame.
    Capture,
    /// Wait until the frame is complete.
    Settle,
    /// Put the frame aside.
    Stage,
    /// Send the frame that was put aside.
    Ship,
    /// Nothing more.
    Stop,
}

/// How a duty went.
#[derive(PartialEq, Eq, Structural, Clone, Copy, Debug)]
pub enum Went {
    Well,
    /// There was nothing to send, which is no reason to stop.
    Nothing,
    /// It could not be done; of sending, that the host has hung up.
    Badly,
}

/// A pump at work.
pub struct Runner {
    duty: Duty,
    primed: bool,
    guard: bool,
    limit: Option<u64>,
    captures: u64,
    shipped: u64,
    restage_failed: u64,
}

/// The same as contracts speak of it.
pub struct Shift {
    pub duty: Duty,
    /// Whether the first frame has been put aside.
    pub primed: bool,
    pub guard: bool,
    pub limit: Option<u64>,
    pub captures: nat,
    pub shipped: nat,
    /// How often there was no new frame to put aside, so that the one before is
    /// sent once more.
    pub restage_failed: nat,
}

impl View for Runner {
    type V = Shift;

    closed spec fn view(&self) -> Shift {
        Shift {
            duty: self.duty,
            primed: self.primed,
            guard: self.guard,
            limit: self.limit,
            captures: self.captures as nat,
            shipped: self.shipped as nat,
            restage_failed: self.restage_failed as nat,
        }
    }
}

/// One more, as far as a counter goes.
pub open spec fn one_more(n: nat) -> nat {
    if n < u64::MAX {
        n + 1
    } else {
        n
    }
}

pub open spec fn at_limit(s: Shift) -> bool {
    s.limit matches Some(n) && s.shipped >= n
}

/// What follows a duty.  The first frame is waited for whatever the guard says,
/// so that the stream starts aligned.  From then on the next frame is asked for
/// before the current one is sent, so that its writing overlaps the transfer.
pub open spec fn next_duty(s: Shift, went: Went) -> Shift {
    match s.duty {
        Duty::Capture => Shift {
            captures: one_more(s.captures),
            duty: if went == Went::Badly {
                Duty::Stop
            } else if s.primed {
                Duty::Ship
            } else {
                Duty::Settle
            },
            ..s
        },
        Duty::Settle => Shift { duty: Duty::Stage, ..s },
        Duty::Stage => Shift {
            primed: true,
            restage_failed: if went == Went::Badly {
                one_more(s.restage_failed)
            } else {
                s.restage_failed
            },
            duty: if at_limit(s) {
                Duty::Stop
            } else {
                Duty::Capture
            },
            ..s
        },
        Duty::Ship => Shift {
            shipped: if went == Went::Nothing {
                s.shipped
            } else {
                one_more(s.shipped)
            },
            duty: if went == Went::Badly {
                Duty::Stop
            } else if s.guard {
                Duty::Settle
            } else {
                Duty::Stage
            },
            ..s
        },
        Duty::Stop => s,
    }
}

/// The numbers of a pump's run.
pub open spec fn stats_text(s: Shift) -> Seq<char> {
    "captures="@ + decimal(s.captures) + " shipped="@ + decimal(s.shipped) + " restage_failed="@
        + decimal(s.restage_failed) + "\n"@
}

fn add_one(n: u64) -> (m: u64)
    ensures
        m as nat == one_more(n as nat),
{
    if n < u64::MAX {
        n + 1
    } else {
        n
    }
}

impl Runner {
    pub fn new(guard: bool, limit: Option<u64>) -> (r: Runner)
        ensures
            r@ == (Shift {
                duty: Duty::Capture,
                primed: false,
                guard,
                limit,
                captures: 0,
                shipped: 0,
                restage_failed: 0,
            }),
    {
        Runner {
            duty: Duty::Capture,
            primed: false,
            guard,
            limit,
            captures: 0,
            shipped: 0,
            restage_failed: 0,
        }
    }

    pub fn duty(&self) -> (d: Duty)
        ensures
            d == self@.duty,
    {
        self.duty
    }

    /// Say how the duty went.
    pub fn done(&mut self, went: Went)
        ensures
            final(self)@ == next_duty(old(self)@, went),
    {
        match self.duty {
            Duty::Capture => {
                self.captures = add_one(self.captures);
                self.duty = if went == Went::Badly {
                    Duty::Stop
                } else if self.primed {
                    Duty::Ship
                } else {
                    Duty::Settle
                };
            },
            Duty::Settle => {
                self.duty = Duty::Stage;
            },
            Duty::Stage => {
                self.primed = true;
                if went == Went::Badly {
                    self.restage_failed = add_one(self.restage_failed);
                }
                let over = match self.limit {
                    Some(n) => self.shipped >= n,
                    None => false,
                };
                self.duty = if over {
                    Duty::Stop
                } else {
                    Duty::Capture
                };
            },
            Duty::Ship => {
                if went != Went::Nothing {
                    self.shipped = add_one(self.shipped);
                }
                self.duty = if went == Went::Badly {
                    Duty::Stop
                } else if self.guard {
                    Duty::Settle
                } else {
                    Duty::Stage
                };
            },
            Duty::Stop => {},
        }
    }

    /// The numbers of the run.
    pub fn stats(&self) -> (text: String)
        ensures
            text@ == stats_text(self@),
    {
        let mut text = String::new();
        text.append("captures=");
        push_decimal(&mut text, self.captures);
        text.append(" shipped=");
        push_decimal(&mut text, self.shipped);
        text.append(" restage_failed=");
        push_decimal(&mut text, self.restage_failed);
        text.append("\n");
        proof {
            assert(text@ =~= stats_text(self@));
        }
        text
    }
}

impl Shift {
    /// What every run keeps: it never ships more than its limit, and is under
    /// it whenever another frame is about to be shipped.
    pub open spec fn within_limit(self) -> bool {
        self.limit matches Some(n) ==> {
            &&& self.shipped <= n
            &&& (self.duty == Duty::Ship || (self.duty == Duty::Capture && self.primed))
                ==> self.shipped < n
        }
    }
}

/// A run stays within its limit.
pub proof fn law_a_run_keeps_its_limit(s: Shift, went: Went)
    requires
        s.within_limit(),
    ensures
        next_duty(s, went).within_limit(),
{
}

/// The first frame is always waited for; and once there is one, the next is
/// asked for before it is sent.
pub proof fn law_the_order_of_a_run(s: Shift, went: Went)
    ensures
        s.duty == Duty::Capture && !s.primed && went != Went::Badly ==> next_duty(s, went).duty
            == Duty::Settle,
        next_duty(s, went).duty == Duty::Ship ==> s.duty == Duty::Capture && s.primed,
        next_duty(s, went).duty == Duty::Capture ==> s.duty == Duty::Stage,
{
}

/// Bytes as pairs of hexadecimal digits.
pub open spec fn hex_of(bytes: Seq<u8>) -> Seq<char>
    decreases bytes.len(),
{
    if bytes.len() == 0 {
        seq![]
    } else {
        hex_of(bytes.drop_last()) + seq![
            hex_digit(bytes.last() as int / 16),
            hex_digit(bytes.last() as int % 16),
        ]
    }
}

/// Bytes as pairs of hexadecimal digits.
pub fn hex_text(bytes: &[u8]) -> (text: String)
    ensures
        text@ == hex_of(bytes@),
{
    let mut text = String::new();
    let mut i: usize = 0;
    proof {
        assert(bytes@.subrange(0, 0) =~= seq![]);
        assert(text@ =~= hex_of(bytes@.subrange(0, 0)));
    }
    while i < bytes.len()
        invariant
            i <= bytes@.len(),
            text@ == hex_of(bytes@.subrange(0, i as int)),
        decreases bytes@.len() - i,
    {
        let b: u32 = bytes[i] as u32;
        text.push(hex_char(b / 16));
        text.push(hex_char(b % 16));
        i = i + 1;
        proof {
            let done = bytes@.subrange(0, i as int);
            assert(done.drop_last() =~= bytes@.subrange(0, i - 1));
            assert(text@ =~= hex_of(done));
        }
    }
    proof {
        assert(bytes@.subrange(0, bytes@.len() as int) =~= bytes@);
    }
    text
}

/// The line of a probe that shows a request.
pub fn request_line(request: &[u8]) -> (line: String)
    ensures
        line@ == "request        "@ + decimal(request@.len()) + " bytes: "@ + hex_of(request@),
{
    let mut line = String::new();
    line.append("request        ");
    push_decimal(&mut line, request.len() as u64);
    line.append(" bytes: ");
    let hex = hex_text(request);
    line.append(hex.as_str());
    proof {
        assert(line@ =~= "request        "@ + decimal(request@.len()) + " bytes: "@ + hex_of(
            request@,
        ));
    }
    line
}

/// The line of a probe that names the kernel: the first line of its version.
pub fn kernel_line(version: &str) -> (line: String)
    ensures
        line@ == "kernel         "@ + (if version@.len() == 0 {
            "?"@
        } else {
            trimmed(pieces(version@, '\n')[0])
        }),
{
    let mut line = String::new();
    line.append("kernel         ");
    let chars = chars_of(version);
    if chars.len() == 0 {
        line.append("?");
    } else {
        let lines = split_pieces(chars.as_slice(), '\n');
        proof {
            assert(strings(lines@)[0] == lines@[0]@);
        }
        let first = chars_of(lines[0].as_str());
        let t = trim(first.as_slice());
        let n: usize = t.len();
        let text = string_of(t.as_slice(), 0, n);
        proof {
            assert(t@.subrange(0, n as int) =~= t@);
        }
        line.append(text.as_str());
    }
    proof {
        assert(line@ =~= "kernel         "@ + (if version@.len() == 0 {
            "?"@
        } else {
            trimmed(pieces(version@, '\n')[0])
        }));
    }
    line
}

/// The line of a probe that names the client programs that were found.
pub fn client_line(found: &Vec<String>) -> (line: String)
    ensures
        line@ == "gfxdebugger    "@ + (if found@.len() == 0 {
            "<not found>"@
        } else {
            joined(strings(found@), " "@)
        }),
{
    let mut line = String::new();
    line.append("gfxdebugger    ");
    if found.len() == 0 {
        line.append("<not found>");
    } else {
        let list = join(found, " ");
        line.append(list.as_str());
    }
    proof {
        assert(line@ =~= "gfxdebugger    "@ + (if found@.len() == 0 {
            "<not found>"@
        } else {
            joined(strings(found@), " "@)
        }));
    }
    line
}

/// An input event holds its type, its code and its value, the low byte of each
/// first, behind eight bytes of no time; a value below zero is held as its
/// complement.
pub proof fn law_what_an_event_holds(kind: u16, code: u16, value: i32)
    ensures
        ({
            let e = event_bytes(kind, code, value);
            &&& e.len() == 16
            &&& forall|i: int| 0 <= i < 8 ==> #[trigger] e[i] == 0
            &&& e[8] + 256 * e[9] == kind
            &&& e[10] + 256 * e[11] == code
            &&& e[12] + 256 * e[13] + 65536 * e[14] + 16777216 * e[15] == (if value >= 0 {
                value as int
            } else {
                value + 4294967296
            })
        }),
{
    let e = event_bytes(kind, code, value);
    let k = le16(kind as int);
    let c = le16(code as int);
    let held = (value as int) % 0x1_0000_0000;
    let v = le32(held);
    assert(held == (if value >= 0 {
        value as int
    } else {
        value + 4294967296
    }));
    assert(v[0] + 256 * v[1] + 65536 * v[2] + 16777216 * v[3] == held) by {
        lemma_le32(held);
    }
    assert(k[0] + 256 * k[1] == kind) by {
        assert(kind as int / 256 % 256 == kind as int / 256);
    }
    assert(c[0] + 256 * c[1] == code) by {
        assert(code as int / 256 % 256 == code as int / 256);
    }
    assert(e[8] == k[0] && e[9] == k[1] && e[10] == c[0] && e[11] == c[1]);
    assert(e[12] == v[0] && e[13] == v[1] && e[14] == v[2] && e[15] == v[3]);
}

/// A key is moved by two events: one of type 1 with the key's code, and 1 for
/// down or 0 for up; and one of nothing but zeros, which ends the report.
pub proof fn law_how_a_key_is_moved(code: u16, down: bool)
    ensures
        ({
            let b = key_bytes(code, down);
            &&& b.len() == 32
            &&& b.subrange(0, 16) == event_bytes(
                1,
                code,
                if down {
                    1i32
                } else {
                    0i32
                },
            )
            &&& forall|i: int| 16 <= i < 32 ==> #[trigger] b[i] == 0
        }),
{
    let b = key_bytes(code, down);
    law_what_an_event_holds(
        1,
        code,
        if down {
            1
        } else {
            0
        },
    );
    law_what_an_event_holds(0, 0, 0);
    let first = event_bytes(
        1,
        code,
        if down {
            1i32
        } else {
            0i32
        },
    );
    let second = event_bytes(0, 0, 0);
    assert(b.subrange(0, 16) =~= first);
    assert forall|i: int| 16 <= i < 32 implies #[trigger] b[i] == 0 by {
        assert(b[i] == second[i - 16]);
    }
}

/// Under a cap, the time between two requests is what the rate gives to within
/// a microsecond, and never more; without one there is no waiting, and neither
/// is there before the first request.
pub proof fn law_how_long_is_waited(max_fps: u32, since: u64)
    ensures
        wait_for(0, Some(since)) == 0,
        wait_for(max_fps, None) == 0,
        0 < max_fps ==> ({
            let gap = wait_for(max_fps, Some(0));
            &&& gap * max_fps <= 1_000_000_000 < (gap + 1000) * max_fps
            &&& wait_for(max_fps, Some(since)) == (if since < gap {
                gap - since
            } else {
                0
            })
        }),
{
    if max_fps > 0 {
        let f = max_fps as int;
        let q = 1_000_000int / f;
        assert(q >= 0 && q * f <= 1_000_000 < (q + 1) * f) by (nonlinear_arith)
            requires
                f > 0,
                q == 1_000_000int / f,
        ;
        let gap = q * 1000;
        assert(gap * f <= 1_000_000_000 < (gap + 1000) * f) by (nonlinear_arith)
            requires
                gap == q * 1000,
                q * f <= 1_000_000 < (q + 1) * f,
        ;
        assert(wait_for(max_fps, Some(0)) == gap);
    }
}

/// A frame of a size that is known is complete at that size and no other, and
/// the size stays what it is; of a frame whose size is not known, a size above
/// zero that was found twice in a row is taken, and no other.
pub proof fn law_when_a_frame_is_complete(known: Option<u64>, last: u64, size: u64)
    ensures
        sized(Watch { known, last }, size).0.known == known,
        known matches Some(want) ==> (sized(Watch { known, last }, size).1 == (if size == want {
            Settle::Done(size)
        } else {
            Settle::Sleep
        })),
        known is None ==> (sized(Watch { known, last }, size) == (
            (Watch { known, last: size }),
            if size > 0 && size == last {
                Settle::Done(size)
            } else {
                Settle::Sleep
            },
        )),
{
}

/// What is counted: requests, frames that were sent, and frames that were not
/// there to put aside.
pub proof fn law_what_a_run_counts(s: Shift, went: Went)
    requires
        s.captures < u64::MAX,
        s.shipped < u64::MAX,
        s.restage_failed < u64::MAX,
    ensures
        next_duty(s, went).captures - s.captures == (if s.duty == Duty::Capture {
            1int
        } else {
            0int
        }),
        next_duty(s, went).shipped - s.shipped == (if s.duty == Duty::Ship && went
            != Went::Nothing {
            1int
        } else {
            0int
        }),
        next_duty(s, went).restage_failed - s.restage_failed == (if s.duty == Duty::Stage && went
            == Went::Badly {
            1int
        } else {
            0int
        }),
        next_duty(s, went).guard == s.guard && next_duty(s, went).limit == s.limit,
{
}

/// Only a request that fails, a host that hangs up, or a limit that is reached
/// stops a run; what has stopped stays so.
pub proof fn law_what_stops_a_run(s: Shift, went: Went)
    ensures
        next_duty(s, went).duty == Duty::Stop <==> {
            ||| s.duty == Duty::Stop
            ||| s.duty == Duty::Capture && went == Went::Badly
            ||| s.duty == Duty::Ship && went == Went::Badly
            ||| s.duty == Duty::Stage && (s.limit matches Some(n) && n <= s.shipped)
        },
        s.duty == Duty::Stop ==> next_duty(s, went) == s,
{
}

/// A run in which this many duties go well.
pub open spec fn worked(s: Shift, duties: nat) -> Shift
    decreases duties,
{
    if duties == 0 {
        s
    } else {
        next_duty(worked(s, (duties - 1) as nat), Went::Well)
    }
}

/// A run that goes well asks for one frame more than it sends: after three
/// duties nothing has been sent, and every three duties after that, or four
/// where each frame is waited for, send one frame.  It stops when it has sent as
/// many as it was limited to.
pub proof fn law_a_run_sends_what_it_was_limited_to(guard: bool, limit: Option<u64>, sent: nat)
    requires
        limit matches Some(n) ==> sent <= n,
        sent < u64::MAX,
    ensures
        ({
            let start = Shift {
                duty: Duty::Capture,
                primed: false,
                guard,
                limit,
                captures: 0,
                shipped: 0,
                restage_failed: 0,
            };
            worked(
                start,
                3 + sent * (if guard {
                    4nat
                } else {
                    3nat
                }),
            ) == (Shift {
                duty: if limit == Some(sent as u64) {
                    Duty::Stop
                } else {
                    Duty::Capture
                },
                primed: true,
                guard,
                limit,
                captures: sent + 1,
                shipped: sent,
                restage_failed: 0,
            })
        }),
    decreases sent,
{
    let start = Shift {
        duty: Duty::Capture,
        primed: false,
        guard,
        limit,
        captures: 0,
        shipped: 0,
        restage_failed: 0,
    };
    reveal_with_fuel(worked, 5);
    if sent > 0 {
        let before = (sent - 1) as nat;
        law_a_run_sends_what_it_was_limited_to(guard, limit, before);
        if guard {
            assert(3 + sent * 4 == (3 + before * 4) + 4);
        } else {
            assert(3 + sent * 3 == (3 + before * 3) + 3);
        }
    }
}

/// Each byte is two digits of the sixteen, the high one first.
pub proof fn law_hex_digits_name_their_byte(bytes: Seq<u8>)
    ensures
        hex_of(bytes).len() == 2 * bytes.len(),
        forall|i: int|
            0 <= i < bytes.len() ==> hex_of(bytes)[2 * i] == "0123456789abcdef"@[(#[trigger] bytes[i]) as int
                / 16] && hex_of(bytes)[2 * i + 1] == "0123456789abcdef"@[bytes[i] as int % 16],
    decreases bytes.len(),
{
    if bytes.len() > 0 {
        let short = bytes.drop_last();
        law_hex_digits_name_their_byte(short);
        lemma_hex_digit(bytes.last() as int / 16);
        lemma_hex_digit(bytes.last() as int % 16);
        assert forall|i: int| 0 <= i < bytes.len() implies hex_of(bytes)[2 * i]
            == "0123456789abcdef"@[(#[trigger] bytes[i]) as int / 16] && hex_of(bytes)[2 * i + 1]
            == "0123456789abcdef"@[bytes[i] as int % 16] by {
            if i < short.len() {
                assert(short[i] == bytes[i]);
                assert(hex_of(bytes)[2 * i] == hex_of(short)[2 * i]);
                assert(hex_of(bytes)[2 * i + 1] == hex_of(short)[2 * i + 1]);
            }
        }
    }
}

proof fn lemma_hex_digit(d: int)
    requires
        0 <= d < 16,
    ensures
        hex_digit(d) == "0123456789abcdef"@[d],
{
    reveal_strlit("0123456789abcdef");
}

proof fn lemma_first_words()
    ensures
        "probe"@ != "control"@ && "probe"@ != "key"@ && "control"@ != "key"@,
        "raw"@ != "png"@ && "1"@ != "0"@ && "ipc"@ != "exec"@,
{
    reveal_strlit("probe");
    reveal_strlit("control");
    reveal_strlit("key");
    reveal_strlit("raw");
    reveal_strlit("png");
    reveal_strlit("1");
    reveal_strlit("0");
    reveal_strlit("ipc");
    reveal_strlit("exec");
    assert("raw"@[0] == 'r' && "png"@[0] == 'p' && "1"@[0] == '1' && "0"@[0] == '0');
    assert("ipc"@.len() == 3 && "exec"@.len() == 4);
    assert("probe"@.len() == 5 && "control"@.len() == 7 && "key"@.len() == 3);
}

/// The first word of a command line may say that it is no run: whatever follows,
/// `probe` and `control` are what they are, and `key` is the press of a key, of
/// code 0 on the first node for 50 milliseconds as far as nothing else is said.
pub proof fn law_what_is_no_run(rest: Seq<Seq<char>>, node: u32, code: u16, hold: u64)
    ensures
        told(seq!["probe"@] + rest) is Probe,
        told(seq!["control"@] + rest) is Control,
        told(seq!["key"@]) == Told::Key((KeyPress { node: 1, code: 0, hold_ms: 50 })),
        told(seq!["key"@, decimal(node as nat), decimal(code as nat)]) == Told::Key(
            (KeyPress { node, code, hold_ms: 50 }),
        ),
        told(
            seq!["key"@, decimal(node as nat), decimal(code as nat), decimal(hold as nat)],
        ) == Told::Key((KeyPress { node, code, hold_ms: hold })),
{
    lemma_first_words();
    law_decimal_reads_back(node as nat);
    law_decimal_reads_back(code as nat);
    law_decimal_reads_back(hold as nat);
    assert((seq!["probe"@] + rest)[0] == "probe"@);
    assert((seq!["control"@] + rest)[0] == "control"@);
    assert(seq!["key"@][0] == "key"@);
    let two = seq!["key"@, decimal(node as nat), decimal(code as nat)];
    assert(two[0] == "key"@ && two[1] == decimal(node as nat) && two[2] == decimal(code as nat));
    let three = seq!["key"@, decimal(node as nat), decimal(code as nat), decimal(hold as nat)];
    assert(three[0] == "key"@ && three[1] == decimal(node as nat) && three[2] == decimal(
        code as nat,
    ) && three[3] == decimal(hold as nat));
}

/// A run is told by place: each setting that is given is taken, whatever the
/// others are, and each that is left out is as it is by default.
pub proof fn law_what_a_run_is_told(args: Seq<Seq<char>>, n: nat)
    requires
        args.len() > 0 ==> args[0] != "probe"@ && args[0] != "control"@ && args[0] != "key"@,
    ensures
        told(args) matches Told::Run(s) && {
            &&& args.len() <= 0 ==> s.delay_us == 5000
            &&& args.len() > 0 && args[0] == decimal(n) && n <= u64::MAX ==> s.delay_us == n
            &&& args.len() <= 1 ==> s.display == 0
            &&& args.len() > 1 && args[1] == decimal(n) && n <= u32::MAX ==> s.display == n
            &&& args.len() <= 2 ==> !s.png
            &&& args.len() > 2 ==> (s.png <==> args[2] == "png"@)
            &&& args.len() <= 3 ==> s.guard
            &&& args.len() > 3 ==> (s.guard <==> args[3] != "0"@)
            &&& args.len() <= 4 ==> s.limit is None
            &&& args.len() > 4 && args[4] == decimal(n) && n <= u64::MAX ==> s.limit == (if n > 0 {
                Some(n as u64)
            } else {
                None
            })
            &&& args.len() <= 5 ==> s.backend == Backend::Ipc
            &&& args.len() > 5 ==> (s.backend == Backend::Exec <==> args[5] == "exec"@)
            &&& args.len() <= 6 ==> s.max_fps == 30
            &&& args.len() > 6 && args[6] == decimal(n) && n <= u32::MAX ==> s.max_fps == n
            &&& args.len() <= 7 ==> s.tag is None
            &&& args.len() > 7 ==> s.tag == Some(args[7])
        },
{
    lemma_first_words();
    law_decimal_reads_back(n);
}

/// A setting that is no number, or one too large, is as it is by default.
pub proof fn law_a_setting_that_is_no_number(args: Seq<Seq<char>>, v: Seq<char>)
    requires
        args.len() > 6,
        args[0] != "probe"@ && args[0] != "control"@ && args[0] != "key"@,
        unsigned(v) is None,
    ensures
        told(args) matches Told::Run(s) && {
            &&& args[0] == v ==> s.delay_us == 5000
            &&& args[1] == v ==> s.display == 0
            &&& args[4] == v ==> s.limit is None
            &&& args[6] == v ==> s.max_fps == 30
        },
{
}

/// What follows each duty that did not stop the run.  A request is followed by
/// the wait for its frame until the first frame is there, and by sending after
/// that; what was sent by the wait for the next frame, where frames are waited
/// for; and a frame that was put aside by the next request.
pub proof fn law_what_follows_a_duty(s: Shift, went: Went)
    requires
        next_duty(s, went).duty != Duty::Stop,
    ensures
        s.duty == Duty::Capture ==> next_duty(s, went).duty == (if s.primed {
            Duty::Ship
        } else {
            Duty::Settle
        }),
        s.duty == Duty::Settle ==> next_duty(s, went).duty == Duty::Stage,
        s.duty == Duty::Stage ==> next_duty(s, went).duty == Duty::Capture,
        s.duty == Duty::Ship ==> next_duty(s, went).duty == (if s.guard {
            Duty::Settle
        } else {
            Duty::Stage
        }),
        next_duty(s, went).primed <==> s.primed || s.duty == Duty::Stage,
{
}

/// The files of a pump are hidden files in the phone's place for temporary ones,
/// and are named by the pump's tag and by the format.
pub proof fn law_where_frames_are_put(side: Seq<char>, tag: Seq<char>)
    ensures
        staging(side, tag, true) == "/data/local/tmp/.kaimirror_"@ + side + tag + ".png"@,
        staging(side, tag, false) == "/data/local/tmp/.kaimirror_"@ + side + tag + ".raw"@,
{
}

} // verus!
