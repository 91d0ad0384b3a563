//! Splitting streams into frames.
use kaimirror::sink::{record_command, sink_input, view_command, Relay, Task, Went};
use kaimirror::stream::{find, raw_geom, FrameStream};

fn header(w: u32, h: u32, fmt: u32, planes: u32) -> Vec<u8> {
    [w, h, fmt, planes].iter().flat_map(|n| n.to_le_bytes()).collect()
}

fn raw_frame(w: u32, h: u32, fill: u8) -> (Vec<u8>, Vec<u8>) {
    let pixels = vec![fill; (w * h * 2) as usize];
    let mut all = header(w, h, 4, 1);
    all.extend(&pixels);
    (all, pixels)
}

fn chunk(kind: &[u8; 4], data: &[u8]) -> Vec<u8> {
    let mut c = (data.len() as u32).to_be_bytes().to_vec();
    c.extend(kind);
    c.extend(data);
    c.extend([1, 2, 3, 4]);
    c
}

fn png(data: &[u8]) -> Vec<u8> {
    let mut p = b"\x89PNG\r\n\x1a\n".to_vec();
    p.extend(chunk(b"IHDR", &[0; 13]));
    p.extend(chunk(b"IDAT", data));
    p.extend(chunk(b"IEND", &[]));
    p
}

fn drain(s: &mut FrameStream) -> Vec<Vec<u8>> {
    let mut out = Vec::new();
    while let Some(f) = s.next_frame() {
        out.push(f);
    }
    out
}

#[test]
fn a_header_has_to_be_plausible() {
    assert_eq!(raw_geom(&header(240, 320, 4, 1), 0), Some((240, 320)));
    assert_eq!(raw_geom(&header(1024, 1, 63, 4), 0), Some((1024, 1)));
    for (w, h, f, p) in
        [(0, 1, 0, 1), (1025, 1, 0, 1), (1, 0, 0, 1), (1, 1025, 0, 1), (1, 1, 64, 1), (1, 1, 0, 0), (1, 1, 0, 5)]
    {
        assert_eq!(raw_geom(&header(w, h, f, p), 0), None);
    }
    assert_eq!(raw_geom(&header(240, 320, 4, 1)[..15], 0), None);
    assert_eq!(raw_geom(&header(240, 320, 4, 1), 1), None);
    assert_eq!(raw_geom(&[], usize::MAX), None);
}

#[test]
fn raw_frames_come_out_as_they_went_in() {
    let (a, pa) = raw_frame(4, 3, 0xff);
    let (b, pb) = raw_frame(2, 2, 0xee);
    let mut s = FrameStream::new(false);
    assert_eq!(s.geom(), None);
    s.feed(&a);
    s.feed(&b);
    assert_eq!(s.next_frame(), Some(pa));
    assert_eq!(s.geom(), Some((4, 3)));
    assert_eq!(s.next_frame(), Some(pb));
    assert_eq!(s.geom(), Some((2, 2)));
    assert_eq!(s.next_frame(), None);
}

#[test]
fn a_damaged_raw_stream_is_picked_up_again() {
    let (a, pa) = raw_frame(4, 3, 0xff);
    let mut s = FrameStream::new(false);
    s.feed(&[0xaa; 40]);
    assert_eq!(s.next_frame(), None);
    s.feed(&a);
    assert_eq!(s.next_frame(), Some(pa));
}

#[test]
fn how_a_raw_stream_is_cut_up_does_not_matter() {
    let (a, _) = raw_frame(4, 3, 0xff);
    let (b, _) = raw_frame(3, 3, 0x77);
    let mut all = vec![0xaa; 21];
    all.extend(&a);
    all.extend([0xbb; 5]);
    all.extend(&b);
    all.extend(&a);
    let mut whole = FrameStream::new(false);
    whole.feed(&all);
    let want = drain(&mut whole);
    assert_eq!(want.len(), 3);
    for size in 1..40 {
        let mut s = FrameStream::new(false);
        let mut got = Vec::new();
        for part in all.chunks(size) {
            s.feed(part);
            got.extend(drain(&mut s));
        }
        assert_eq!(got, want, "in parts of {size}");
    }
}

#[test]
fn png_files_come_out_as_they_went_in() {
    let (a, b) = (png(b"first"), png(b""));
    let mut s = FrameStream::new(true);
    s.feed(&a);
    s.feed(&b);
    assert_eq!(s.next_frame(), Some(a));
    assert_eq!(s.next_frame(), Some(b));
    assert_eq!(s.next_frame(), None);
    assert_eq!(s.geom(), None);
}

#[test]
fn a_damaged_png_stream_is_picked_up_again() {
    let a = png(b"data");
    let mut cut = a[..20].to_vec();
    cut.extend(&a);
    let mut s = FrameStream::new(true);
    s.feed(b"junk before");
    s.feed(&cut);
    assert_eq!(drain(&mut s), vec![a.clone()]);

    // A chunk whose length is nonsense.
    let mut bad = b"\x89PNG\r\n\x1a\n\xff\xff\xff\xffIDAT".to_vec();
    bad.extend(&a);
    let mut s = FrameStream::new(true);
    s.feed(&bad);
    assert_eq!(drain(&mut s), vec![a]);
}

#[test]
fn how_a_png_stream_is_cut_up_does_not_matter() {
    let (a, b) = (png(b"first"), png(b"second frame"));
    let mut all = b"\x89PNG\r\n\x1a\n\0\0\0\x01I2AT".to_vec();
    all.extend(&a);
    all.extend(b"\x89PNG\r");
    all.extend(&b);
    let mut whole = FrameStream::new(true);
    whole.feed(&all);
    let want = drain(&mut whole);
    assert_eq!(want, vec![a, b]);
    for size in 1..30 {
        let mut s = FrameStream::new(true);
        let mut got = Vec::new();
        for part in all.chunks(size) {
            s.feed(part);
            got.extend(drain(&mut s));
        }
        assert_eq!(got, want, "in parts of {size}");
    }
}

#[test]
fn finding_bytes() {
    assert_eq!(find(b"abcabd", b"abd"), Some(3));
    assert_eq!(find(b"abcabd", b"a"), Some(0));
    assert_eq!(find(b"ab", b"abc"), None);
    assert_eq!(find(b"", b"a"), None);
    assert_eq!(find(b"aaab", b"aab"), Some(1));
}

#[test]
fn the_command_lines_of_the_sinks() {
    let mut raw = FrameStream::new(false);
    raw.feed(&raw_frame(240, 320, 0).0);
    raw.next_frame().unwrap();
    assert_eq!(
        sink_input(&raw, 30),
        [
            "-f", "rawvideo", "-pixel_format", "rgb565le", "-video_size", "240x320", "-framerate",
            "30", "-i", "-"
        ]
    );
    let files = FrameStream::new(true);
    assert_eq!(
        sink_input(&files, 7),
        ["-f", "image2pipe", "-vcodec", "png", "-framerate", "7", "-i", "-"]
    );
    assert_eq!(
        view_command(&files, Some("2.5"), 7),
        [
            "ffplay", "-hide_banner", "-loglevel", "error", "-f", "image2pipe", "-vcodec", "png",
            "-framerate", "7", "-i", "-", "-vf", "scale=iw*2.5:ih*2.5:flags=neighbor",
            "-window_title", "kaimirror", "-autoexit"
        ]
    );
    assert_eq!(view_command(&files, None, 7).len(), 15);
    assert_eq!(
        record_command(&files, "out.mp4", 10),
        [
            "ffmpeg", "-hide_banner", "-loglevel", "error", "-y", "-f", "image2pipe", "-vcodec",
            "png", "-framerate", "10", "-i", "-", "-pix_fmt", "yuv420p", "out.mp4"
        ]
    );
}

fn tasks(went: &[Went]) -> (Vec<Task>, u64) {
    let mut r = Relay::new();
    let mut seen = vec![r.task()];
    for w in went {
        r.went(*w);
        seen.push(r.task());
    }
    (seen, r.sent())
}

#[test]
fn a_relay_keeps_a_frame_until_there_is_room() {
    assert_eq!(
        tasks(&[Went::No, Went::Full, Went::Yes, Went::No, Went::Yes, Went::No, Went::Yes, Went::Yes]),
        (
            vec![
                Task::Interrupted,
                Task::TrySend,
                Task::Send,
                Task::Clock,
                Task::Read,
                Task::Interrupted,
                Task::TrySend,
                Task::Clock,
                Task::Report,
            ],
            2
        )
    );
}

#[test]
fn a_relay_winds_down_in_one_order() {
    let end = [Task::CloseStream, Task::CloseQueue, Task::JoinWriter, Task::WaitSink, Task::Over, Task::Over];
    let rest = [Went::Yes; 5];
    for start in [vec![Went::Yes], vec![Went::No, Went::No], vec![Went::No, Went::Full, Went::No]] {
        let mut all = start.clone();
        all.extend(rest);
        assert_eq!(tasks(&all).0[start.len()..], end);
    }
}

/// Damage, frames back to back, and an end inside a frame.
#[test]
fn a_stream_may_end_inside_a_frame() {
    let (a, pa) = raw_frame(4, 3, 0xff);
    let (b, pb) = raw_frame(2, 2, 0xee);
    for cut in 0..b.len() {
        let mut s = FrameStream::new(false);
        s.feed(&a);
        s.feed(&b);
        s.feed(&b[..cut]);
        assert_eq!(s.next_raw(), Some(pa.clone()));
        assert_eq!(s.geom(), Some((4, 3)));
        assert_eq!(s.next_raw(), Some(pb.clone()));
        assert_eq!(s.next_raw(), None, "cut at {cut}");
        assert_eq!(s.geom(), Some((2, 2)));
    }
    let (x, y) = (png(b"x"), png(b"yy"));
    let mut s = FrameStream::new(true);
    s.feed(b"\x89PNG damage");
    s.feed(&x);
    s.feed(&y);
    assert_eq!(s.next_png(), Some(x));
    assert_eq!(s.next_png(), Some(y));
    assert_eq!(s.next_png(), None);
}

/// Over a whole run, each frame that was read is handed over once.
#[test]
fn a_relay_hands_over_every_frame_it_reads() {
    let mut r = Relay::new();
    let (mut got, mut given, mut turn) = (1u64, 0u64, 0u32);
    while r.task() != Task::Over {
        turn += 1;
        let went = match r.task() {
            // Room for every third frame only.
            Task::TrySend if turn % 3 != 0 => Went::Full,
            Task::TrySend | Task::Send => {
                given += 1;
                Went::Yes
            }
            Task::Interrupted => Went::No,
            Task::Clock if turn % 2 == 0 => Went::No,
            Task::Read if got == 20 => Went::No,
            Task::Read => {
                assert_eq!(got, given);
                got += 1;
                Went::Yes
            }
            _ => Went::Yes,
        };
        r.went(went);
    }
    assert_eq!((got, given, r.sent()), (20, 20, 20));
}
