//! Feeding frames to ffplay or ffmpeg: their command lines, and the order of
//! the relay between the phone and them.
use vstd::prelude::*;
use crate::stream::FrameStream;
use crate::text::{
    decimal, law_decimal_reads_back, no_words, push_decimal, push_string, push_word, strings,
    to_decimal, unsigned,
};

verus! {

/// The arguments that tell ffmpeg or ffplay what the phone is sending.
pub open spec fn input_args(png: bool, geom: Option<(u32, u32)>, fps: u32) -> Seq<Seq<char>> {
    if png {
        seq![
            "-f"@,
            "image2pipe"@,
            "-vcodec"@,
            "png"@,
            "-framerate"@,
            decimal(fps as nat),
            "-i"@,
            "-"@,
        ]
    } else {
        let (w, h) = geom->0;
        seq![
            "-f"@,
            "rawvideo"@,
            "-pixel_format"@,
            "rgb565le"@,
            "-video_size"@,
            decimal(w as nat) + "x"@ + decimal(h as nat),
            "-framerate"@,
            decimal(fps as nat),
            "-i"@,
            "-"@,
        ]
    }
}

/// ffmpeg/ffplay input arguments for whatever the phone is sending.  The
/// geometry of a raw stream is known once a frame has arrived.
pub fn sink_input(stream: &FrameStream, fps: u32) -> (args: Vec<String>)
    requires
        stream@.png || stream@.geom is Some,
    ensures
        strings(args@) == input_args(stream@.png, stream@.geom, fps),
{
    let mut args = no_words();
    push_word(&mut args, "-f");
    if stream.png() {
        push_word(&mut args, "image2pipe");
        push_word(&mut args, "-vcodec");
        push_word(&mut args, "png");
    } else if let Some((w, h)) = stream.geom() {
        push_word(&mut args, "rawvideo");
        push_word(&mut args, "-pixel_format");
        push_word(&mut args, "rgb565le");
        push_word(&mut args, "-video_size");
        let mut size = String::new();
        push_decimal(&mut size, w as u64);
        size.append("x");
        push_decimal(&mut size, h as u64);
        proof {
            assert(size@ =~= decimal(w as nat) + "x"@ + decimal(h as nat));
        }
        push_string(&mut args, size);
    }
    push_word(&mut args, "-framerate");
    push_string(&mut args, to_decimal(fps as u64));
    push_word(&mut args, "-i");
    push_word(&mut args, "-");
    proof {
        assert(strings(args@) =~= input_args(stream@.png, stream@.geom, fps));
    }
    args
}

/// The filter that scales a picture by a factor, given as it is written.
pub open spec fn scale_args(scale: Option<Seq<char>>) -> Seq<Seq<char>> {
    match scale {
        Some(s) => seq!["-vf"@, "scale=iw*"@ + s + ":ih*"@ + s + ":flags=neighbor"@],
        None => seq![],
    }
}

/// The viewer's command line.
pub open spec fn view_args(input: Seq<Seq<char>>, scale: Option<Seq<char>>) -> Seq<Seq<char>> {
    seq!["ffplay"@, "-hide_banner"@, "-loglevel"@, "error"@] + input + scale_args(scale) + seq![
        "-window_title"@,
        "kaimirror"@,
        "-autoexit"@,
    ]
}

/// The recorder's command line.
pub open spec fn record_args(input: Seq<Seq<char>>, output: Seq<char>) -> Seq<Seq<char>> {
    seq!["ffmpeg"@, "-hide_banner"@, "-loglevel"@, "error"@, "-y"@] + input + seq![
        "-pix_fmt"@,
        "yuv420p"@,
        output,
    ]
}

fn push_all(words: &mut Vec<String>, more: Vec<String>)
    ensures
        strings(final(words)@) == strings(old(words)@) + strings(more@),
{
    let mut more = more;
    let ghost added = strings(more@);
    words.append(&mut more);
    proof {
        assert(strings(words@) =~= strings(old(words)@) + added);
    }
}

/// The viewer's command line; `scale` is the factor as it is written, or None
/// where the picture keeps its size.
pub fn view_command(stream: &FrameStream, scale: Option<&str>, fps: u32) -> (cmd: Vec<String>)
    requires
        stream@.png || stream@.geom is Some,
    ensures
        strings(cmd@) == view_args(
            input_args(stream@.png, stream@.geom, fps),
            match scale {
                Some(s) => Some(s@),
                None => None,
            },
        ),
{
    let mut cmd = no_words();
    push_word(&mut cmd, "ffplay");
    push_word(&mut cmd, "-hide_banner");
    push_word(&mut cmd, "-loglevel");
    push_word(&mut cmd, "error");
    push_all(&mut cmd, sink_input(stream, fps));
    if let Some(s) = scale {
        push_word(&mut cmd, "-vf");
        let mut filter = String::new();
        filter.append("scale=iw*");
        filter.append(s);
        filter.append(":ih*");
        filter.append(s);
        filter.append(":flags=neighbor");
        proof {
            assert(filter@ =~= "scale=iw*"@ + s@ + ":ih*"@ + s@ + ":flags=neighbor"@);
        }
        push_string(&mut cmd, filter);
    }
    push_word(&mut cmd, "-window_title");
    push_word(&mut cmd, "kaimirror");
    push_word(&mut cmd, "-autoexit");
    proof {
        assert(strings(cmd@) =~= view_args(
            input_args(stream@.png, stream@.geom, fps),
            match scale {
                Some(s) => Some(s@),
                None => None,
            },
        ));
    }
    cmd
}

/// The recorder's command line.
pub fn record_command(stream: &FrameStream, output: &str, fps: u32) -> (cmd: Vec<String>)
    requires
        stream@.png || stream@.geom is Some,
    ensures
        strings(cmd@) == record_args(input_args(stream@.png, stream@.geom, fps), output@),
{
    let mut cmd = no_words();
    push_word(&mut cmd, "ffmpeg");
    push_word(&mut cmd, "-hide_banner");
    push_word(&mut cmd, "-loglevel");
    push_word(&mut cmd, "error");
    push_word(&mut cmd, "-y");
    push_all(&mut cmd, sink_input(stream, fps));
    push_word(&mut cmd, "-pix_fmt");
    push_word(&mut cmd, "yuv420p");
    push_word(&mut cmd, output);
    proof {
        assert(strings(cmd@) =~= record_args(
            input_args(stream@.png, stream@.geom, fps),
            output@,
        ));
    }
    cmd
}

/// How often a running relay reports its rate, in milliseconds.
pub const REPORT_MS: u64 = 5000;

/// What a relay does next.
#[derive(PartialEq, Eq, Structural, Clone, Copy, Debug)]
pub enum Task {
    /// See whether a stop was asked for.
    Interrupted,
    /// Hand the frame to the writer, if it has room.
    TrySend,
    /// Hand the frame to the writer, however long that takes.
    Send,
    /// See whether it is time for a report.
    Clock,
    Report,
    /// Get the next frame.
    Read,
    /// Stop the phone.
    CloseStream,
    /// Let the writer see the end of the frames.
    CloseQueue,
    /// Wait until the writer has written what was queued.
    JoinWriter,
    /// Wait until the sink has finished its file.
    WaitSink,
    /// Nothing: the relay is over.
    Over,
}

/// How a task went.
#[derive(PartialEq, Eq, Structural, Clone, Copy, Debug)]
pub enum Went {
    Yes,
    No,
    /// The writer is there, but has no room.
    Full,
}

/// A relay of frames from the phone to a sink, which has the first frame.
pub struct Relay {
    task: Task,
    sent: u64,
}

/// The same as contracts speak of it.
pub struct Errand {
    pub task: Task,
    pub sent: nat,
}

impl View for Relay {
    type V = Errand;

    closed spec fn view(&self) -> Errand {
        Errand { task: self.task, sent: self.sent as nat }
    }
}

/// One more frame with the writer.
pub open spec fn counted(e: Errand) -> Errand {
    Errand {
        task: Task::Clock,
        sent: if e.sent < u64::MAX {
            e.sent + 1
        } else {
            e.sent
        },
    }
}

/// What follows a task.  A writer without room makes the frame wait; it is
/// never dropped for that.  However a relay ends, the phone is stopped first,
/// then what is queued is written, and then the sink finishes its file.
pub open spec fn followed(e: Errand, went: Went) -> Errand {
    match e.task {
        Task::Interrupted => if went == Went::Yes {
            Errand { task: Task::CloseStream, ..e }
        } else {
            Errand { task: Task::TrySend, ..e }
        },
        Task::TrySend => match went {
            Went::Yes => counted(e),
            Went::Full => Errand { task: Task::Send, ..e },
            Went::No => Errand { task: Task::CloseStream, ..e },
        },
        Task::Send => if went == Went::Yes {
            counted(e)
        } else {
            Errand { task: Task::CloseStream, ..e }
        },
        Task::Clock => if went == Went::Yes {
            Errand { task: Task::Report, ..e }
        } else {
            Errand { task: Task::Read, ..e }
        },
        Task::Report => Errand { task: Task::Read, ..e },
        Task::Read => if went == Went::Yes {
            Errand { task: Task::Interrupted, ..e }
        } else {
            Errand { task: Task::CloseStream, ..e }
        },
        Task::CloseStream => Errand { task: Task::CloseQueue, ..e },
        Task::CloseQueue => Errand { task: Task::JoinWriter, ..e },
        Task::JoinWriter => Errand { task: Task::WaitSink, ..e },
        Task::WaitSink => Errand { task: Task::Over, ..e },
        Task::Over => e,
    }
}

impl Relay {
    pub fn new() -> (r: Relay)
        ensures
            r@ == (Errand { task: Task::Interrupted, sent: 0 }),
    {
        Relay { task: Task::Interrupted, sent: 0 }
    }

    pub fn task(&self) -> (t: Task)
        ensures
            t == self@.task,
    {
        self.task
    }

    /// How many frames the writer was given.
    pub fn sent(&self) -> (n: u64)
        ensures
            n == self@.sent,
    {
        self.sent
    }

    fn count(&mut self)
        ensures
            final(self)@ == counted(old(self)@),
    {
        if self.sent < u64::MAX {
            self.sent = self.sent + 1;
        }
        self.task = Task::Clock;
    }

    /// Say how the task went.
    pub fn went(&mut self, went: Went)
        ensures
            final(self)@ == followed(old(self)@, went),
    {
        match self.task {
            Task::Interrupted => {
                self.task = if went == Went::Yes {
                    Task::CloseStream
                } else {
                    Task::TrySend
                };
            },
            Task::TrySend => match went {
                Went::Yes => self.count(),
                Went::Full => {
                    self.task = Task::Send;
                },
                Went::No => {
                    self.task = Task::CloseStream;
                },
            },
            Task::Send => {
                if went == Went::Yes {
                    self.count();
                } else {
                    self.task = Task::CloseStream;
                }
            },
            Task::Clock => {
                self.task = if went == Went::Yes {
                    Task::Report
                } else {
                    Task::Read
                };
            },
            Task::Report => {
                self.task = Task::Read;
            },
            Task::Read => {
                self.task = if went == Went::Yes {
                    Task::Interrupted
                } else {
                    Task::CloseStream
                };
            },
            Task::CloseStream => {
                self.task = Task::CloseQueue;
            },
            Task::CloseQueue => {
                self.task = Task::JoinWriter;
            },
            Task::JoinWriter => {
                self.task = Task::WaitSink;
            },
            Task::WaitSink => {
                self.task = Task::Over;
            },
            Task::Over => {},
        }
    }
}

/// A frame that the writer has no room for is kept until it has: it is handed
/// over or the writer is gone, and no other frame is read in between.
pub proof fn law_a_frame_waits_for_room(e: Errand, went: Went)
    requires
        e.task == Task::TrySend,
    ensures
        followed(e, Went::Full).task == Task::Send,
        followed(e, Went::Full).sent == e.sent,
        followed(followed(e, Went::Full), went).task != Task::Read,
        followed(followed(e, Went::Full), Went::Yes) == counted(e),
{
}

/// Whatever ends a relay, it winds down in one order: the phone, the queue, the
/// writer, the sink.
pub proof fn law_one_way_to_wind_down(e: Errand, a: Went, b: Went, c: Went, d: Went)
    requires
        e.task == Task::CloseStream,
    ensures
        followed(e, a).task == Task::CloseQueue,
        followed(followed(e, a), b).task == Task::JoinWriter,
        followed(followed(followed(e, a), b), c).task == Task::WaitSink,
        followed(followed(followed(followed(e, a), b), c), d) == (Errand {
            task: Task::Over,
            sent: e.sent,
        }),
{
}

/// A relay after these outcomes, one task after the other.
pub open spec fn ran(e: Errand, outcomes: Seq<Went>) -> Errand
    decreases outcomes.len(),
{
    if outcomes.len() == 0 {
        e
    } else {
        followed(ran(e, outcomes.drop_last()), outcomes.last())
    }
}

/// How many frames the writer took on the way.
pub open spec fn hand_overs(e: Errand, outcomes: Seq<Went>) -> nat
    decreases outcomes.len(),
{
    if outcomes.len() == 0 {
        0
    } else {
        let before = hand_overs(e, outcomes.drop_last());
        let task = ran(e, outcomes.drop_last()).task;
        if (task == Task::TrySend || task == Task::Send) && outcomes.last() == Went::Yes {
            before + 1
        } else {
            before
        }
    }
}

/// How many frames were read on the way.
pub open spec fn frames_read(e: Errand, outcomes: Seq<Went>) -> nat
    decreases outcomes.len(),
{
    if outcomes.len() == 0 {
        0
    } else {
        let before = frames_read(e, outcomes.drop_last());
        if ran(e, outcomes.drop_last()).task == Task::Read && outcomes.last() == Went::Yes {
            before + 1
        } else {
            before
        }
    }
}

/// The tasks with a frame in hand.
pub open spec fn in_hand(t: Task) -> bool {
    t == Task::Interrupted || t == Task::TrySend || t == Task::Send
}

/// The tasks of a relay that is on its way to the next frame.
pub open spec fn between_frames(t: Task) -> bool {
    t == Task::Clock || t == Task::Report || t == Task::Read
}

/// What a relay has sent is the number of hand-overs, at its end and at any
/// time, as far as the counter goes.
pub proof fn law_sent_is_the_hand_overs(outcomes: Seq<Went>)
    ensures
        ({
            let n = hand_overs(Errand { task: Task::Interrupted, sent: 0 }, outcomes);
            ran(Errand { task: Task::Interrupted, sent: 0 }, outcomes).sent == (if n
                <= u64::MAX {
                n
            } else {
                u64::MAX as nat
            })
        }),
    decreases outcomes.len(),
{
    if outcomes.len() > 0 {
        law_sent_is_the_hand_overs(outcomes.drop_last());
    }
}

/// No frame is lost while a relay runs: each that was got, the first one
/// included, was handed over, but for the one that is in hand; and where the
/// relay winds down, at most that one was not.
pub proof fn law_no_frame_is_lost(outcomes: Seq<Went>)
    ensures
        ({
            let start = Errand { task: Task::Interrupted, sent: 0 };
            let end = ran(start, outcomes);
            let got = 1 + frames_read(start, outcomes);
            let given = hand_overs(start, outcomes);
            &&& in_hand(end.task) ==> got == given + 1
            &&& between_frames(end.task) ==> got == given
            &&& given <= got <= given + 1
        }),
    decreases outcomes.len(),
{
    if outcomes.len() > 0 {
        law_no_frame_is_lost(outcomes.drop_last());
    }
}

proof fn lemma_up_to_the_next_read(e: Errand, outcomes: Seq<Went>)
    requires
        e.task == Task::Read,
        outcomes.len() > 0,
        forall|k: int|
            0 < k < outcomes.len() ==> (#[trigger] ran(e, outcomes.take(k))).task != Task::Read,
    ensures
        in_hand(ran(e, outcomes).task) ==> hand_overs(e, outcomes) == 0,
        between_frames(ran(e, outcomes).task) ==> hand_overs(e, outcomes) == 1,
    decreases outcomes.len(),
{
    let short = outcomes.drop_last();
    let n = short.len() as int;
    if n == 0 {
        assert(ran(e, short) == e);
        assert(hand_overs(e, short) == 0);
    } else {
        assert forall|k: int| 0 < k < short.len() implies (#[trigger] ran(e, short.take(k))).task
            != Task::Read by {
            assert(short.take(k) =~= outcomes.take(k));
        }
        assert(outcomes.take(n) =~= short);
        assert(ran(e, outcomes.take(n)).task != Task::Read);
        lemma_up_to_the_next_read(e, short);
    }
}

/// Between one reading of a frame and the next, exactly one frame is handed
/// over, and it is counted.
pub proof fn law_one_frame_between_two_reads(e: Errand, outcomes: Seq<Went>)
    requires
        e.task == Task::Read,
        e.sent + outcomes.len() <= u64::MAX,
        outcomes.len() > 0,
        ran(e, outcomes).task == Task::Read,
        forall|k: int|
            0 < k < outcomes.len() ==> (#[trigger] ran(e, outcomes.take(k))).task != Task::Read,
    ensures
        hand_overs(e, outcomes) == 1,
        ran(e, outcomes).sent == e.sent + 1,
{
    lemma_up_to_the_next_read(e, outcomes);
    lemma_count_on(e, outcomes);
}

proof fn lemma_count_on(e: Errand, outcomes: Seq<Went>)
    requires
        e.sent + outcomes.len() <= u64::MAX,
    ensures
        ran(e, outcomes).sent == e.sent + hand_overs(e, outcomes),
        hand_overs(e, outcomes) <= outcomes.len(),
    decreases outcomes.len(),
{
    if outcomes.len() > 0 {
        lemma_count_on(e, outcomes.drop_last());
    }
}

/// A relay winds down where a stop was asked for, where the writer is gone, and
/// where no frame comes any more; and nothing else makes it.
pub proof fn law_what_ends_a_relay(e: Errand, went: Went)
    requires
        in_hand(e.task) || between_frames(e.task),
    ensures
        followed(e, went).task == Task::CloseStream <==> {
            ||| e.task == Task::Interrupted && went == Went::Yes
            ||| e.task == Task::TrySend && went == Went::No
            ||| e.task == Task::Send && went != Went::Yes
            ||| e.task == Task::Read && went != Went::Yes
        },
        followed(e, went).task == Task::CloseStream ==> followed(e, went).sent == e.sent,
        in_hand(followed(e, went).task) || between_frames(followed(e, went).task) || followed(
            e,
            went,
        ).task == Task::CloseStream,
{
}

/// A report is made exactly where it is time for one, and whether it is made or
/// not the next frame is read then.
pub proof fn law_reports_come_between_frames(e: Errand, went: Went)
    ensures
        followed(e, went).task == Task::Report <==> e.task == Task::Clock && went == Went::Yes,
        e.task == Task::Clock && went != Went::Yes ==> followed(e, went) == (Errand {
            task: Task::Read,
            sent: e.sent,
        }),
        e.task == Task::Report ==> followed(e, went) == (Errand {
            task: Task::Read,
            sent: e.sent,
        }),
{
}

/// A frame that the writer takes leads to the next one: with or without a wait
/// for room, and with or without a report, one more frame has been sent when the
/// next is in hand.
pub proof fn law_a_round_sends_one_frame(sent: nat)
    requires
        sent < u64::MAX,
    ensures
        ({
            let e = Errand { task: Task::Interrupted, sent };
            let next = Errand { task: Task::Interrupted, sent: sent + 1 };
            &&& ran(e, seq![Went::No, Went::Yes, Went::No, Went::Yes]) == next
            &&& ran(e, seq![Went::No, Went::Full, Went::Yes, Went::No, Went::Yes]) == next
            &&& ran(e, seq![Went::No, Went::Yes, Went::Yes, Went::Yes, Went::Yes]) == next
        }),
{
    let e = Errand { task: Task::Interrupted, sent };
    reveal_with_fuel(ran, 6);
    let a = seq![Went::No, Went::Yes, Went::No, Went::Yes];
    let b = seq![Went::No, Went::Full, Went::Yes, Went::No, Went::Yes];
    let c = seq![Went::No, Went::Yes, Went::Yes, Went::Yes, Went::Yes];
    assert(ran(e, a).sent == sent + 1);
    assert(ran(e, b).sent == sent + 1);
    assert(ran(e, c).sent == sent + 1);
}

/// The sink is told the rate of the frames, and reads them from its input; of
/// raw frames, it is told the width, the height and the format of a pixel too.
pub proof fn law_the_sink_is_told_what_comes(png: bool, geom: Option<(u32, u32)>, fps: u32)
    requires
        png || geom is Some,
    ensures
        ({
            let args = input_args(png, geom, fps);
            let n = args.len() as int;
            &&& args[n - 2] == "-i"@ && args[n - 1] == "-"@
            &&& args[n - 4] == "-framerate"@ && unsigned(args[n - 3]) == Some(fps as nat)
            &&& args[0] == "-f"@
            &&& png ==> args[1] == "image2pipe"@ && args[2] == "-vcodec"@ && args[3] == "png"@
            &&& !png ==> args[1] == "rawvideo"@ && args[2] == "-pixel_format"@ && args[3]
                == "rgb565le"@ && args[4] == "-video_size"@ && exists|k: int|
                0 <= k < args[5].len() && #[trigger] args[5][k] == 'x' && unsigned(args[5].take(k))
                    == Some((geom->0).0 as nat) && unsigned(args[5].skip(k + 1)) == Some(
                    (geom->0).1 as nat,
                )
        }),
{
    let args = input_args(png, geom, fps);
    law_decimal_reads_back(fps as nat);
    if !png {
        let (w, h) = geom->0;
        law_decimal_reads_back(w as nat);
        law_decimal_reads_back(h as nat);
        reveal_strlit("x");
        let k = decimal(w as nat).len() as int;
        assert(args[5][k] == 'x');
        assert(args[5].take(k) =~= decimal(w as nat));
        assert(args[5].skip(k + 1) =~= decimal(h as nat));
    }
}

/// The viewer and the recorder are given all of the input arguments, in order
/// and next to each other; the recorder writes to the file that was named, which
/// comes last, and the viewer scales both sides by what was asked for.
pub proof fn law_sinks_are_given_their_input(
    input: Seq<Seq<char>>,
    scale: Option<Seq<char>>,
    output: Seq<char>,
)
    ensures
        ({
            let n = input.len() as int;
            let view = view_args(input, scale);
            let record = record_args(input, output);
            &&& view[0] == "ffplay"@
            &&& view.subrange(4, 4 + n) == input
            &&& scale is None ==> view.len() == n + 7
            &&& scale matches Some(s) ==> view.len() == n + 9 && view[4 + n] == "-vf"@ && view[5 + n]
                == "scale=iw*"@ + s + ":ih*"@ + s + ":flags=neighbor"@
            &&& view[view.len() - 1] == "-autoexit"@
            &&& record[0] == "ffmpeg"@ && record[4] == "-y"@
            &&& record.subrange(5, 5 + n) == input
            &&& record.len() == n + 8
            &&& record[record.len() - 1] == output
        }),
{
    let n = input.len() as int;
    let view = view_args(input, scale);
    let record = record_args(input, output);
    assert(view.subrange(4, 4 + n) =~= input);
    assert(record.subrange(5, 5 + n) =~= input);
}

} // verus!
