//! Splitting the stream that the device pump produces into frames.
//!
//! Frames arrive back to back with no length in front.  Both formats are
//! self-describing enough to be split here, and a damaged stream is picked up
//! again at the next thing that looks like the start of a frame:
//!
//! * raw: a header of sixteen bytes (width, height, format, planes), then two
//!   bytes for each pixel.  The header doubles as the sync marker and gives
//!   the geometry.
//! * png: a signature, then chunks up to the one called IEND.
use vstd::prelude::*;
use crate::text::{found_at, lemma_found_at};

verus! {

/// The length of a raw frame's header.
pub const RAW_HDR: usize = 16;

/// The length of a PNG signature.
pub const SIG_LEN: usize = 8;

/// A longer chunk is garbage, not a frame.
pub const MAX_CHUNK: u64 = 16777216;

/// The four bytes of a little-endian word at `at`.
pub open spec fn le_word(buf: Seq<u8>, at: int) -> int {
    buf[at] as int + 256 * buf[at + 1] as int + 65536 * buf[at + 2] as int + 16777216 * buf[at
        + 3] as int
}

/// The four bytes of a big-endian word at `at`.
pub open spec fn be_word(buf: Seq<u8>, at: int) -> int {
    16777216 * buf[at] as int + 65536 * buf[at + 1] as int + 256 * buf[at + 2] as int + buf[at
        + 3] as int
}

/// The width and the height of a raw frame whose header is at `at`; nothing
/// where that is no plausible header.
pub open spec fn raw_header(buf: Seq<u8>, at: int) -> Option<(int, int)> {
    if at < 0 || at + RAW_HDR > buf.len() {
        None
    } else {
        let w = le_word(buf, at);
        let h = le_word(buf, at + 4);
        let fmt = le_word(buf, at + 8);
        let planes = le_word(buf, at + 12);
        if 1 <= w <= 1024 && 1 <= h <= 1024 && fmt < 64 && 1 <= planes <= 4 {
            Some((w, h))
        } else {
            None
        }
    }
}

/// The first plausible header at or after `from`.
pub open spec fn raw_sync(buf: Seq<u8>, from: int) -> Option<int>
    decreases buf.len() - from,
{
    if from < 0 || from + RAW_HDR > buf.len() {
        None
    } else if raw_header(buf, from) is Some {
        Some(from)
    } else {
        raw_sync(buf, from + 1)
    }
}

/// What a raw stream yields next: a frame with its geometry, if one is whole,
/// and what stays in the buffer.  What comes before a header is skipped; where
/// there is no header, one may still be on its way in the last bytes.
pub open spec fn raw_next(buf: Seq<u8>) -> (Option<((int, int), Seq<u8>)>, Seq<u8>) {
    match raw_sync(buf, 0) {
        None => if buf.len() < RAW_HDR {
            (None, buf)
        } else {
            (None, buf.subrange(buf.len() - (RAW_HDR - 1), buf.len() as int))
        },
        Some(j) => {
            let (w, h) = raw_header(buf, j)->0;
            let end = j + RAW_HDR + w * h * 2;
            if end > buf.len() {
                (None, buf.subrange(j, buf.len() as int))
            } else {
                (
                    Some(((w, h), buf.subrange(j + RAW_HDR, end))),
                    buf.subrange(end, buf.len() as int),
                )
            }
        },
    }
}

/// The PNG signature.
pub open spec fn signature() -> Seq<u8> {
    seq![0x89u8, 0x50u8, 0x4eu8, 0x47u8, 0x0du8, 0x0au8, 0x1au8, 0x0au8]
}

pub open spec fn is_alphabetic(b: u8) -> bool {
    0x41 <= b <= 0x5a || 0x61 <= b <= 0x7a
}

/// Whether a chunk may begin at `at`: its length is no nonsense, and its type
/// is four letters.
pub open spec fn chunk_ok(buf: Seq<u8>, at: int) -> bool {
    &&& be_word(buf, at) <= MAX_CHUNK
    &&& is_alphabetic(buf[at + 4])
    &&& is_alphabetic(buf[at + 5])
    &&& is_alphabetic(buf[at + 6])
    &&& is_alphabetic(buf[at + 7])
}

/// The place behind the chunk at `at`: its length and type, its data, and its
/// check sum.
pub open spec fn chunk_end(buf: Seq<u8>, at: int) -> int {
    at + 8 + be_word(buf, at) + 4
}

/// Whether the chunk at `at` is the last of its file.
pub open spec fn is_iend(buf: Seq<u8>, at: int) -> bool {
    buf[at + 4] == 0x49 && buf[at + 5] == 0x45 && buf[at + 6] == 0x4e && buf[at + 7] == 0x44
}

/// How a walk over chunks ends.
pub enum Chunks {
    /// Behind the last chunk of a file.
    Whole(int),
    /// At a chunk that has not arrived yet.
    Partial(int),
    /// At something that is no chunk.
    Broken,
}

/// Walks the chunks from `at` on.
pub open spec fn chunks(buf: Seq<u8>, at: int) -> Chunks
    decreases buf.len() - at,
{
    if at + 8 > buf.len() {
        Chunks::Partial(at)
    } else if !chunk_ok(buf, at) {
        Chunks::Broken
    } else if chunk_end(buf, at) > buf.len() {
        Chunks::Partial(at)
    } else if is_iend(buf, at) {
        Chunks::Whole(chunk_end(buf, at))
    } else {
        chunks(buf, chunk_end(buf, at))
    }
}

/// What a PNG stream yields next: a file, if one is whole; what stays in the
/// buffer; and how far its chunks have been walked.
pub open spec fn png_next(buf: Seq<u8>, pos: int) -> (Option<Seq<u8>>, Seq<u8>, int)
    decreases buf.len(),
{
    if buf.len() < SIG_LEN {
        (None, buf, pos)
    } else {
        match found_at(buf, signature(), 0) {
            None => (
                None,
                buf.subrange(buf.len() - (SIG_LEN - 1), buf.len() as int),
                SIG_LEN as int,
            ),
            Some(j) => {
                proof {
                    lemma_found_at(buf, signature(), 0);
                }
                let from = buf.subrange(j, buf.len() as int);
                let at = if j == 0 {
                    pos
                } else {
                    SIG_LEN as int
                };
                match chunks(from, at) {
                    Chunks::Whole(end) => (
                        Some(from.subrange(0, end)),
                        from.subrange(end, from.len() as int),
                        SIG_LEN as int,
                    ),
                    Chunks::Partial(next) => (None, from, next),
                    // Not a file after all: look for the next one.
                    Chunks::Broken => png_next(
                        from.subrange(1, from.len() as int),
                        SIG_LEN as int,
                    ),
                }
            },
        }
    }
}

/// The frames of a stream, split out of the bytes as they arrive.
pub struct FrameStream {
    png: bool,
    /// The width and the height, learned from the first raw frame.
    geom: Option<(u32, u32)>,
    buf: Vec<u8>,
    /// How far the chunks of the file at the front have been walked.
    pos: usize,
}

/// The same as contracts speak of it.
pub struct Feed {
    pub png: bool,
    pub geom: Option<(u32, u32)>,
    pub buf: Seq<u8>,
    pub pos: int,
}

impl View for FrameStream {
    type V = Feed;

    closed spec fn view(&self) -> Feed {
        Feed { png: self.png, geom: self.geom, buf: self.buf@, pos: self.pos as int }
    }
}

impl Feed {
    pub open spec fn valid(self) -> bool {
        self.pos == SIG_LEN || (self.png && SIG_LEN <= self.pos <= self.buf.len())
    }
}

/// What a stream yields next, and the stream after that.
pub open spec fn yielded(f: Feed) -> (Option<Seq<u8>>, Feed) {
    if f.png {
        let (file, buf, pos) = png_next(f.buf, f.pos);
        (file, Feed { buf, pos, ..f })
    } else {
        match raw_next(f.buf) {
            (Some((geom, pixels)), buf) => (
                Some(pixels),
                Feed { buf, geom: Some((geom.0 as u32, geom.1 as u32)), ..f },
            ),
            (None, buf) => (None, Feed { buf, ..f }),
        }
    }
}

/// A stream that more bytes have arrived of.
pub open spec fn fed(f: Feed, more: Seq<u8>) -> Feed {
    Feed { buf: f.buf + more, ..f }
}

/// Where `needle` first occurs in `hay`.
pub fn find(hay: &[u8], needle: &[u8]) -> (at: Option<usize>)
    requires
        needle@.len() > 0,
    ensures
        match at {
            Some(i) => found_at(hay@, needle@, 0) == Some(i as int) && i + needle@.len()
                <= hay@.len(),
            None => found_at(hay@, needle@, 0) is None,
        },
{
    let n: usize = hay.len();
    let m: usize = needle.len();
    let mut i: usize = 0;
    while i <= n && n - i >= m
        invariant
            i <= n,
            n == hay@.len(),
            m == needle@.len(),
            m > 0,
            found_at(hay@, needle@, 0) == found_at(hay@, needle@, i as int),
        decreases n - i,
    {
        let mut k: usize = 0;
        while k < m && hay[i + k] == needle[k]
            invariant
                k <= m,
                i + m <= n,
                n == hay@.len(),
                m == needle@.len(),
                forall|x: int| 0 <= x < k ==> hay@[i + x] == needle@[x],
            decreases m - k,
        {
            k = k + 1;
        }
        if k == m {
            proof {
                assert(hay@.subrange(i as int, i + m) =~= needle@);
            }
            return Some(i);
        }
        proof {
            assert(hay@.subrange(i as int, i + m)[k as int] != needle@[k as int]);
        }
        i = i + 1;
    }
    None
}

fn le_word_at(buf: &[u8], at: usize) -> (w: u32)
    requires
        at + 4 <= buf@.len(),
    ensures
        w as int == le_word(buf@, at as int),
{
    let _len: usize = buf.len();
    buf[at] as u32 + 256 * buf[at + 1] as u32 + 65536 * buf[at + 2] as u32 + 16777216 * buf[at
        + 3] as u32
}

fn be_word_at(buf: &[u8], at: usize) -> (w: u32)
    requires
        at + 4 <= buf@.len(),
    ensures
        w as int == be_word(buf@, at as int),
{
    let _len: usize = buf.len();
    16777216 * buf[at] as u32 + 65536 * buf[at + 1] as u32 + 256 * buf[at + 2] as u32 + buf[at
        + 3] as u32
}

fn alphabetic(b: u8) -> (yes: bool)
    ensures
        yes == is_alphabetic(b),
{
    (0x41 <= b && b <= 0x5a) || (0x61 <= b && b <= 0x7a)
}

/// A raw frame header at `at`, or None if it is not a plausible one.
pub fn raw_geom(buf: &[u8], at: usize) -> (geom: Option<(u32, u32)>)
    ensures
        match geom {
            Some((w, h)) => raw_header(buf@, at as int) == Some((w as int, h as int)),
            None => raw_header(buf@, at as int) is None,
        },
{
    let n: usize = buf.len();
    if n < RAW_HDR || at > n - RAW_HDR {
        return None;
    }
    let w: u32 = le_word_at(buf, at);
    let h: u32 = le_word_at(buf, at + 4);
    let fmt: u32 = le_word_at(buf, at + 8);
    let planes: u32 = le_word_at(buf, at + 12);
    if 1 <= w && w <= 1024 && 1 <= h && h <= 1024 && fmt < 64 && 1 <= planes && planes <= 4 {
        Some((w, h))
    } else {
        None
    }
}

enum Step {
    Whole(usize),
    Partial(usize),
    Broken,
}

/// Walks the chunks from `pos` on.
fn walk_chunks(buf: &[u8], pos: usize) -> (s: Step)
    requires
        pos == SIG_LEN || pos <= buf@.len(),
    ensures
        match s {
            Step::Whole(end) => chunks(buf@, pos as int) == Chunks::Whole(end as int) && pos < end
                <= buf@.len(),
            Step::Partial(at) => chunks(buf@, pos as int) == Chunks::Partial(at as int) && (at
                == pos || pos < at <= buf@.len()),
            Step::Broken => chunks(buf@, pos as int) is Broken,
        },
{
    let n: usize = buf.len();
    let mut at: usize = pos;
    loop
        invariant
            n == buf@.len(),
            at == pos || pos < at <= n,
            chunks(buf@, pos as int) == chunks(buf@, at as int),
        decreases n - at,
    {
        if n < 8 || at > n - 8 {
            return Step::Partial(at);
        }
        let length: u32 = be_word_at(buf, at);
        if length as u64 > MAX_CHUNK || !alphabetic(buf[at + 4]) || !alphabetic(buf[at + 5])
            || !alphabetic(buf[at + 6]) || !alphabetic(buf[at + 7]) {
            return Step::Broken;
        }
        let left: usize = n - at - 8;
        if (left as u64) < length as u64 + 4 {
            return Step::Partial(at);
        }
        let end: usize = at + 8 + length as usize + 4;
        if buf[at + 4] == 0x49 && buf[at + 5] == 0x45 && buf[at + 6] == 0x4e && buf[at + 7] == 0x44 {
            return Step::Whole(end);
        }
        at = end;
    }
}

impl FrameStream {
    /// A stream of which nothing has arrived yet.
    pub fn new(png: bool) -> (s: FrameStream)
        ensures
            s@ == (Feed { png, geom: None, buf: seq![], pos: SIG_LEN as int }),
            s@.valid(),
    {
        let s = FrameStream { png, geom: None, buf: Vec::new(), pos: SIG_LEN };
        proof {
            assert(s@.buf =~= seq![]);
        }
        s
    }

    /// Whether the stream is one of PNG files.
    pub fn png(&self) -> (yes: bool)
        ensures
            yes == self@.png,
    {
        self.png
    }

    /// The width and the height, once a raw frame has arrived.
    pub fn geom(&self) -> (g: Option<(u32, u32)>)
        ensures
            g == self@.geom,
    {
        self.geom
    }

    /// Take the bytes that have arrived.
    pub fn feed(&mut self, bytes: &[u8])
        requires
            old(self)@.valid(),
        ensures
            final(self)@ == fed(old(self)@, bytes@),
            final(self)@.valid(),
    {
        self.buf.extend_from_slice(bytes);
        proof {
            assert(self.buf@ =~= old(self)@.buf + bytes@);
        }
    }

    /// Throw away the first `n` bytes.
    fn skip(&mut self, n: usize)
        requires
            n <= old(self)@.buf.len(),
        ensures
            final(self)@ == (Feed {
                buf: old(self)@.buf.subrange(n as int, old(self)@.buf.len() as int),
                ..old(self)@
            }),
    {
        let rest = self.buf.split_off(n);
        self.buf = rest;
    }

    /// The next frame of a raw stream.
    pub fn next_raw(&mut self) -> (frame: Option<Vec<u8>>)
        requires
            old(self)@.valid(),
            !old(self)@.png,
        ensures
            (match frame {
                Some(f) => Some(f@),
                None => None,
            }, final(self)@) == yielded(old(self)@),
            final(self)@.valid(),
    {
        let n: usize = self.buf.len();
        if n < RAW_HDR {
            return None;
        }
        let mut j: usize = 0;
        while j <= n - RAW_HDR
            invariant
                RAW_HDR <= n,
                n == self.buf@.len(),
                j <= n - RAW_HDR + 1,
                self@ == old(self)@,
                self@.valid(),
                !self@.png,
                raw_sync(self.buf@, 0) == raw_sync(self.buf@, j as int),
            decreases n - j,
        {
            if let Some((w, h)) = raw_geom(self.buf.as_slice(), j) {
                proof {
                    assert(1 <= w * h <= 1024 * 1024) by (nonlinear_arith)
                        requires
                            1 <= w <= 1024,
                            1 <= h <= 1024,
                    ;
                }
                let need: usize = RAW_HDR + (w as usize) * (h as usize) * 2;
                if j > 0 {
                    self.skip(j);
                }
                proof {
                    let all = old(self)@.buf;
                    assert(self.buf@ =~= all.subrange(j as int, all.len() as int));
                }
                if self.buf.len() < need {
                    return None;
                }
                let ghost from = self.buf@;
                let rest = self.buf.split_off(need);
                let frame = self.buf.split_off(RAW_HDR);
                self.buf = rest;
                self.geom = Some((w, h));
                proof {
                    let all = old(self)@.buf;
                    assert(frame@ =~= all.subrange(j + RAW_HDR, j + need));
                    assert(self.buf@ =~= all.subrange(j + need, all.len() as int));
                }
                return Some(frame);
            }
            j = j + 1;
        }
        self.skip(n - (RAW_HDR - 1));
        None
    }

    /// The next file of a PNG stream.
    pub fn next_png(&mut self) -> (file: Option<Vec<u8>>)
        requires
            old(self)@.valid(),
            old(self)@.png,
        ensures
            (match file {
                Some(f) => Some(f@),
                None => None,
            }, final(self)@) == yielded(old(self)@),
            final(self)@.valid(),
    {
        let sig: [u8; 8] = [0x89, 0x50, 0x4e, 0x47, 0x0d, 0x0a, 0x1a, 0x0a];
        proof {
            assert(sig@ =~= signature());
        }
        loop
            invariant
                self@.valid(),
                self@.png,
                self@.geom == old(self)@.geom,
                sig@ == signature(),
                png_next(self@.buf, self@.pos) == png_next(old(self)@.buf, old(self)@.pos),
                old(self)@.png,
            decreases self@.buf.len(),
        {
            let n: usize = self.buf.len();
            if n < SIG_LEN {
                return None;
            }
            let ghost before = self@;
            match find(self.buf.as_slice(), sig.as_slice()) {
                None => {
                    self.skip(n - (SIG_LEN - 1));
                    self.pos = SIG_LEN;
                    return None;
                },
                Some(j) => {
                    if j > 0 {
                        self.pos = SIG_LEN;
                        self.skip(j);
                    }
                    proof {
                        assert(self@.buf =~= before.buf.subrange(j as int, n as int));
                    }
                    match walk_chunks(self.buf.as_slice(), self.pos) {
                        Step::Whole(end) => {
                            let rest = self.buf.split_off(end);
                            let mut file: Vec<u8> = Vec::new();
                            file.append(&mut self.buf);
                            self.buf = rest;
                            self.pos = SIG_LEN;
                            proof {
                                let from = before.buf.subrange(j as int, n as int);
                                assert(file@ =~= from.subrange(0, end as int));
                            }
                            return Some(file);
                        },
                        Step::Partial(at) => {
                            self.pos = at;
                            return None;
                        },
                        Step::Broken => {
                            self.skip(1);
                            self.pos = SIG_LEN;
                        },
                    }
                },
            }
        }
    }

    /// The next frame, or None while it has not arrived in full.
    pub fn next_frame(&mut self) -> (frame: Option<Vec<u8>>)
        requires
            old(self)@.valid(),
        ensures
            (match frame {
                Some(f) => Some(f@),
                None => None,
            }, final(self)@) == yielded(old(self)@),
            final(self)@.valid(),
    {
        if self.png {
            self.next_png()
        } else {
            self.next_raw()
        }
    }
}

proof fn lemma_header_stays(buf: Seq<u8>, more: Seq<u8>, at: int)
    requires
        0 <= at,
        at + RAW_HDR <= buf.len(),
    ensures
        raw_header(buf + more, at) == raw_header(buf, at),
{
    let all = buf + more;
    assert(all[at] == buf[at] && all[at + 1] == buf[at + 1] && all[at + 2] == buf[at + 2] && all[at
        + 3] == buf[at + 3]);
    assert(all[at + 4] == buf[at + 4] && all[at + 5] == buf[at + 5] && all[at + 6] == buf[at + 6]
        && all[at + 7] == buf[at + 7]);
    assert(all[at + 8] == buf[at + 8] && all[at + 9] == buf[at + 9] && all[at + 10] == buf[at + 10]
        && all[at + 11] == buf[at + 11]);
    assert(all[at + 12] == buf[at + 12] && all[at + 13] == buf[at + 13] && all[at + 14] == buf[at
        + 14] && all[at + 15] == buf[at + 15]);
}

proof fn lemma_header_moves(buf: Seq<u8>, cut: int, at: int)
    requires
        0 <= cut <= at,
        at + RAW_HDR <= buf.len(),
    ensures
        raw_header(buf.subrange(cut, buf.len() as int), at - cut) == raw_header(buf, at),
{
    let b = buf.subrange(cut, buf.len() as int);
    let k = at - cut;
    assert(b[k] == buf[at] && b[k + 1] == buf[at + 1] && b[k + 2] == buf[at + 2] && b[k + 3]
        == buf[at + 3]);
    assert(b[k + 4] == buf[at + 4] && b[k + 5] == buf[at + 5] && b[k + 6] == buf[at + 6] && b[k + 7]
        == buf[at + 7]);
    assert(b[k + 8] == buf[at + 8] && b[k + 9] == buf[at + 9] && b[k + 10] == buf[at + 10] && b[k
        + 11] == buf[at + 11]);
    assert(b[k + 12] == buf[at + 12] && b[k + 13] == buf[at + 13] && b[k + 14] == buf[at + 14] && b[k
        + 15] == buf[at + 15]);
}

/// What later bytes do to the search for a header: one that was found stays,
/// and where none was, the search goes on where it could not look yet.
proof fn lemma_sync_extended(buf: Seq<u8>, more: Seq<u8>, from: int)
    requires
        0 <= from,
    ensures
        match raw_sync(buf, from) {
            Some(j) => raw_sync(buf + more, from) == Some(j) && from <= j && j + RAW_HDR
                <= buf.len() && raw_header(buf, j) is Some,
            None => from + RAW_HDR <= buf.len() ==> raw_sync(buf + more, from) == raw_sync(
                buf + more,
                buf.len() - RAW_HDR + 1,
            ),
        },
    decreases buf.len() - from,
{
    if from + RAW_HDR <= buf.len() {
        lemma_header_stays(buf, more, from);
        if raw_header(buf, from) is None {
            lemma_sync_extended(buf, more, from + 1);
        }
    }
}

proof fn lemma_sync_moves(buf: Seq<u8>, cut: int, from: int)
    requires
        0 <= cut <= from,
        cut <= buf.len(),
    ensures
        raw_sync(buf.subrange(cut, buf.len() as int), from - cut) == (match raw_sync(buf, from) {
            Some(j) => Some(j - cut),
            None => None,
        }),
    decreases buf.len() - from,
{
    if from + RAW_HDR <= buf.len() {
        lemma_header_moves(buf, cut, from);
        lemma_sync_moves(buf, cut, from + 1);
    }
}

/// A raw frame is read back as it was written, and what follows it stays.
pub proof fn law_a_raw_frame_reads_back(header: Seq<u8>, pixels: Seq<u8>, rest: Seq<u8>)
    requires
        header.len() == RAW_HDR,
        raw_header(header, 0) matches Some((w, h)) && pixels.len() == w * h * 2,
    ensures
        raw_next(header + pixels + rest) == (Some((raw_header(header, 0)->0, pixels)), rest),
{
    let all = header + pixels + rest;
    assert(all =~= header + (pixels + rest));
    lemma_header_stays(header, pixels + rest, 0);
    let (w, h) = raw_header(header, 0)->0;
    assert(raw_sync(all, 0) == Some(0int));
    let end = RAW_HDR + w * h * 2;
    assert(all.subrange(0 + RAW_HDR as int, end) =~= pixels);
    assert(all.subrange(end, all.len() as int) =~= rest);
}

/// A raw frame is found behind anything that holds no plausible header.
pub proof fn law_a_damaged_raw_stream_resyncs(junk: Seq<u8>, header: Seq<u8>, rest: Seq<u8>)
    requires
        header.len() == RAW_HDR,
        raw_header(header, 0) is Some,
        forall|i: int| 0 <= i < junk.len() ==> raw_header(junk + header + rest, i) is None,
    ensures
        raw_next(junk + header + rest) == raw_next(header + rest),
{
    let all = junk + header + rest;
    let n = junk.len() as int;
    lemma_sync_skips(all, 0, n);
    assert(all.subrange(n, all.len() as int) =~= header + rest);
    lemma_header_stays(header, rest, 0);
    lemma_header_moves(all, n, n);
    lemma_sync_moves(all, n, n);
    let tail = header + rest;
    let (w, h) = raw_header(tail, 0)->0;
    assert(raw_sync(tail, 0) == Some(0int));
    assert(raw_sync(all, 0) == Some(n));
    let size = RAW_HDR + w * h * 2;
    assert(0 <= w * h) by (nonlinear_arith)
        requires
            w >= 1,
            h >= 1,
    ;
    if n + size <= all.len() {
        assert(all.subrange(n + RAW_HDR, n + size) =~= tail.subrange(0 + RAW_HDR as int, size));
        assert(all.subrange(n + size, all.len() as int) =~= tail.subrange(
            size,
            tail.len() as int,
        ));
    } else {
        assert(all.subrange(n, all.len() as int) =~= tail.subrange(0, tail.len() as int));
    }
}

proof fn lemma_sync_skips(buf: Seq<u8>, from: int, to: int)
    requires
        0 <= from <= to,
        to + RAW_HDR <= buf.len(),
        forall|i: int| from <= i < to ==> raw_header(buf, i) is None,
    ensures
        raw_sync(buf, from) == raw_sync(buf, to),
    decreases to - from,
{
    if from < to {
        lemma_sync_skips(buf, from + 1, to);
    }
}

/// How a raw stream is cut up on its way does not matter: what is yielded after
/// more bytes have come is what would have been yielded had they been there
/// from the start.
pub proof fn law_raw_chunking_does_not_matter(buf: Seq<u8>, more: Seq<u8>)
    ensures
        match raw_next(buf) {
            (Some(frame), rest) => raw_next(buf + more) == (Some(frame), rest + more),
            (None, rest) => raw_next(rest + more) == raw_next(buf + more),
        },
{
    let all = buf + more;
    lemma_sync_extended(buf, more, 0);
    match raw_sync(buf, 0) {
        None => {
            if buf.len() >= RAW_HDR {
                let cut = buf.len() - (RAW_HDR - 1);
                let rest = buf.subrange(cut, buf.len() as int);
                assert(rest + more =~= all.subrange(cut, all.len() as int));
                lemma_sync_moves(all, cut, cut);
                lemma_same_yield(all, cut);
            }
        },
        Some(j) => {
            lemma_header_stays(buf, more, j);
            let (w, h) = raw_header(buf, j)->0;
            assert(0 <= w * h) by (nonlinear_arith)
                requires
                    w >= 1,
                    h >= 1,
            ;
            let end = j + RAW_HDR + w * h * 2;
            if end > buf.len() {
                let rest = buf.subrange(j, buf.len() as int);
                assert(rest + more =~= all.subrange(j, all.len() as int));
                lemma_sync_moves(all, j, j);
                assert(raw_sync(all, j) == Some(j));
                lemma_same_yield(all, j);
            } else {
                assert(all.subrange(j + RAW_HDR, end) =~= buf.subrange(j + RAW_HDR, end));
                assert(all.subrange(end, all.len() as int) =~= buf.subrange(end, buf.len() as int)
                    + more);
            }
        },
    }
}

/// Cutting off bytes in front of the first header changes nothing.
proof fn lemma_same_yield(all: Seq<u8>, cut: int)
    requires
        0 <= cut <= all.len(),
        raw_sync(all, 0) == raw_sync(all, cut),
        raw_sync(all, cut) is None ==> cut <= all.len() - (RAW_HDR - 1),
    ensures
        raw_next(all.subrange(cut, all.len() as int)) == raw_next(all),
{
    let b = all.subrange(cut, all.len() as int);
    lemma_sync_moves(all, cut, cut);
    match raw_sync(all, cut) {
        None => {
            if b.len() < RAW_HDR {
                if all.len() >= RAW_HDR {
                    assert(b =~= all.subrange(all.len() - (RAW_HDR - 1), all.len() as int));
                } else {
                    assert(b =~= all);
                }
            } else {
                assert(b.subrange(b.len() - (RAW_HDR - 1), b.len() as int) =~= all.subrange(
                    all.len() - (RAW_HDR - 1),
                    all.len() as int,
                ));
            }
        },
        Some(j) => {
            lemma_sync_extended(all, seq![], cut);
            lemma_header_moves(all, cut, j);
            let (w, h) = raw_header(all, j)->0;
            assert(0 <= w * h) by (nonlinear_arith)
                requires
                    w >= 1,
                    h >= 1,
            ;
            let end = j + RAW_HDR + w * h * 2;
            let k = j - cut;
            if end > all.len() {
                assert(b.subrange(k, b.len() as int) =~= all.subrange(j, all.len() as int));
            } else {
                assert(b.subrange(k + RAW_HDR, end - cut) =~= all.subrange(j + RAW_HDR, end));
                assert(b.subrange(end - cut, b.len() as int) =~= all.subrange(
                    end,
                    all.len() as int,
                ));
            }
        },
    }
}

/// What later bytes do to a search: an occurrence that was found stays, and
/// where none was, the search goes on where it could not look yet.
proof fn lemma_found_extended(buf: Seq<u8>, more: Seq<u8>, pat: Seq<u8>, from: int)
    requires
        0 <= from,
        pat.len() > 0,
    ensures
        match found_at(buf, pat, from) {
            Some(j) => found_at(buf + more, pat, from) == Some(j) && from <= j && j + pat.len()
                <= buf.len(),
            None => from + pat.len() <= buf.len() ==> found_at(buf + more, pat, from) == found_at(
                buf + more,
                pat,
                buf.len() - pat.len() + 1,
            ),
        },
    decreases buf.len() - from,
{
    if from + pat.len() <= buf.len() {
        assert((buf + more).subrange(from, from + pat.len()) =~= buf.subrange(
            from,
            from + pat.len(),
        ));
        if buf.subrange(from, from + pat.len()) != pat {
            lemma_found_extended(buf, more, pat, from + 1);
        }
    }
}

proof fn lemma_found_moves(buf: Seq<u8>, pat: Seq<u8>, cut: int, from: int)
    requires
        0 <= cut <= from,
        cut <= buf.len(),
        pat.len() > 0,
    ensures
        found_at(buf.subrange(cut, buf.len() as int), pat, from - cut) == (match found_at(
            buf,
            pat,
            from,
        ) {
            Some(j) => Some(j - cut),
            None => None,
        }),
    decreases buf.len() - from,
{
    let b = buf.subrange(cut, buf.len() as int);
    if from + pat.len() <= buf.len() {
        assert(b.subrange(from - cut, from - cut + pat.len()) =~= buf.subrange(
            from,
            from + pat.len(),
        ));
        lemma_found_moves(buf, pat, cut, from + 1);
    }
}

proof fn lemma_chunk_stays(buf: Seq<u8>, more: Seq<u8>, at: int)
    requires
        0 <= at,
        at + 8 <= buf.len(),
    ensures
        chunk_ok(buf + more, at) == chunk_ok(buf, at),
        chunk_end(buf + more, at) == chunk_end(buf, at),
        is_iend(buf + more, at) == is_iend(buf, at),
        at + 12 <= chunk_end(buf, at),
{
    let all = buf + more;
    assert(all[at] == buf[at] && all[at + 1] == buf[at + 1] && all[at + 2] == buf[at + 2] && all[at
        + 3] == buf[at + 3]);
    assert(all[at + 4] == buf[at + 4] && all[at + 5] == buf[at + 5] && all[at + 6] == buf[at + 6]
        && all[at + 7] == buf[at + 7]);
}

/// What later bytes do to a walk over chunks: it ends as it did, or goes on
/// from where it had to stop.
proof fn lemma_chunks_extended(buf: Seq<u8>, more: Seq<u8>, at: int)
    requires
        0 <= at,
    ensures
        match chunks(buf, at) {
            Chunks::Whole(end) => chunks(buf + more, at) == Chunks::Whole(end) && at <= end
                <= buf.len(),
            Chunks::Broken => chunks(buf + more, at) is Broken,
            Chunks::Partial(next) => chunks(buf + more, at) == chunks(buf + more, next) && at
                <= next,
        },
    decreases buf.len() - at,
{
    if at + 8 <= buf.len() {
        lemma_chunk_stays(buf, more, at);
        if chunk_ok(buf, at) && chunk_end(buf, at) <= buf.len() && !is_iend(buf, at) {
            lemma_chunks_extended(buf, more, chunk_end(buf, at));
        }
    }
}

/// A PNG file, from its signature to its last chunk, is read back as it was
/// written, and what follows it stays.
pub proof fn law_a_png_reads_back(file: Seq<u8>, rest: Seq<u8>)
    requires
        file.len() >= SIG_LEN,
        file.subrange(0, SIG_LEN as int) == signature(),
        chunks(file, SIG_LEN as int) == Chunks::Whole(file.len() as int),
    ensures
        png_next(file + rest, SIG_LEN as int) == (Some(file), rest, SIG_LEN as int),
{
    let all = file + rest;
    assert(all.subrange(0, 0 + signature().len() as int) =~= signature()) by {
        assert(file.subrange(0, SIG_LEN as int) =~= all.subrange(0, SIG_LEN as int));
    }
    assert(found_at(all, signature(), 0) == Some(0int));
    assert(all.subrange(0, all.len() as int) =~= all);
    lemma_chunks_extended(file, rest, SIG_LEN as int);
    assert(all.subrange(0, file.len() as int) =~= file);
    assert(all.subrange(file.len() as int, all.len() as int) =~= rest);
}

proof fn lemma_found_skips(buf: Seq<u8>, pat: Seq<u8>, from: int, to: int)
    requires
        0 <= from <= to,
        to + pat.len() <= buf.len(),
        forall|i: int| from <= i < to ==> #[trigger] buf.subrange(i, i + pat.len()) != pat,
    ensures
        found_at(buf, pat, from) == found_at(buf, pat, to),
    decreases to - from,
{
    if from < to {
        assert(buf.subrange(from, from + pat.len()) != pat);
        lemma_found_skips(buf, pat, from + 1, to);
    }
}

/// A PNG file is found behind anything that holds no signature.
pub proof fn law_a_damaged_png_stream_resyncs(junk: Seq<u8>, file: Seq<u8>, rest: Seq<u8>)
    requires
        file.len() >= SIG_LEN,
        file.subrange(0, SIG_LEN as int) == signature(),
        chunks(file, SIG_LEN as int) == Chunks::Whole(file.len() as int),
        forall|i: int|
            0 <= i < junk.len() ==> #[trigger] (junk + file + rest).subrange(i, i + SIG_LEN)
                != signature(),
    ensures
        png_next(junk + file + rest, SIG_LEN as int) == (Some(file), rest, SIG_LEN as int),
{
    let all = junk + file + rest;
    let n = junk.len() as int;
    let sig = signature();
    lemma_found_skips(all, sig, 0, n);
    assert(all.subrange(n, n + sig.len()) =~= sig) by {
        assert(file.subrange(0, SIG_LEN as int) =~= all.subrange(n, n + SIG_LEN));
    }
    assert(found_at(all, sig, 0) == Some(n));
    let from = all.subrange(n, all.len() as int);
    assert(from =~= file + rest);
    lemma_chunks_extended(file, rest, SIG_LEN as int);
    assert(from.subrange(0, file.len() as int) =~= file);
    assert(from.subrange(file.len() as int, from.len() as int) =~= rest);
}

/// How a PNG stream is cut up on its way does not matter: what is yielded after
/// more bytes have come is what would have been yielded had they been there
/// from the start.
pub proof fn law_png_chunking_does_not_matter(buf: Seq<u8>, pos: int, more: Seq<u8>)
    requires
        pos == SIG_LEN || SIG_LEN <= pos <= buf.len(),
    ensures
        match png_next(buf, pos) {
            (Some(file), rest, next) => png_next(buf + more, pos) == (
                Some(file),
                rest + more,
                next,
            ),
            (None, rest, next) => png_next(rest + more, next) == png_next(buf + more, pos),
        },
    decreases buf.len(),
{
    if buf.len() >= SIG_LEN {
        let sig = signature();
        let all = buf + more;
        lemma_found_extended(buf, more, sig, 0);
        match found_at(buf, sig, 0) {
            None => {
                let cut = buf.len() - (SIG_LEN - 1);
                let rest = buf.subrange(cut, buf.len() as int);
                assert(rest + more =~= all.subrange(cut, all.len() as int));
                lemma_found_moves(all, sig, cut, cut);
                lemma_same_file(all, pos, cut);
            },
            Some(j) => {
                let from = buf.subrange(j, buf.len() as int);
                let at = if j == 0 {
                    pos
                } else {
                    SIG_LEN as int
                };
                let from_all = all.subrange(j, all.len() as int);
                assert(from_all =~= from + more);
                lemma_chunks_extended(from, more, at);
                match chunks(from, at) {
                    Chunks::Whole(end) => {
                        assert(from_all.subrange(0, end) =~= from.subrange(0, end));
                        assert(from_all.subrange(end, from_all.len() as int) =~= from.subrange(
                            end,
                            from.len() as int,
                        ) + more);
                    },
                    Chunks::Partial(next) => {
                        lemma_found_at(buf, sig, 0);
                        assert(from_all.subrange(0, 0 + sig.len() as int) =~= buf.subrange(
                            j,
                            j + sig.len(),
                        ));
                        assert(found_at(from_all, sig, 0) == Some(0int));
                        assert(from_all.subrange(0, from_all.len() as int) =~= from_all);
                    },
                    Chunks::Broken => {
                        let shorter = from.subrange(1, from.len() as int);
                        assert(from_all.subrange(1, from_all.len() as int) =~= shorter + more);
                        law_png_chunking_does_not_matter(shorter, SIG_LEN as int, more);
                    },
                }
            },
        }
    }
}

/// Cutting off bytes in front of the first signature changes nothing.
proof fn lemma_same_file(all: Seq<u8>, pos: int, cut: int)
    requires
        0 < cut <= all.len() - (SIG_LEN - 1),
        found_at(all, signature(), 0) == found_at(all, signature(), cut),
    ensures
        png_next(all.subrange(cut, all.len() as int), SIG_LEN as int) == png_next(all, pos),
{
    let sig = signature();
    let b = all.subrange(cut, all.len() as int);
    lemma_found_moves(all, sig, cut, cut);
    lemma_found_at(all, sig, cut);
    match found_at(all, sig, cut) {
        None => {
            if b.len() < SIG_LEN {
                assert(b =~= all.subrange(all.len() - (SIG_LEN - 1), all.len() as int));
            } else {
                assert(b.subrange(b.len() - (SIG_LEN - 1), b.len() as int) =~= all.subrange(
                    all.len() - (SIG_LEN - 1),
                    all.len() as int,
                ));
            }
        },
        Some(j) => {
            assert(b.subrange(j - cut, b.len() as int) =~= all.subrange(j, all.len() as int));
        },
    }
}

/// A frame takes up some of the bytes, and a stream stays valid.
pub proof fn lemma_yield_shrinks(f: Feed)
    requires
        f.valid(),
    ensures
        yielded(f).1.valid(),
        yielded(f).1.png == f.png,
        yielded(f).0 is Some ==> yielded(f).1.buf.len() < f.buf.len(),
{
    if f.png {
        lemma_png_shrinks(f.buf, f.pos);
    } else {
        lemma_sync_extended(f.buf, seq![], 0);
        if let Some(j) = raw_sync(f.buf, 0) {
            let (w, h) = raw_header(f.buf, j)->0;
            assert(0 <= w * h) by (nonlinear_arith)
                requires
                    w >= 1,
                    h >= 1,
            ;
        }
    }
}

proof fn lemma_png_shrinks(buf: Seq<u8>, pos: int)
    requires
        pos == SIG_LEN || SIG_LEN <= pos <= buf.len(),
    ensures
        ({
            let (file, rest, next) = png_next(buf, pos);
            &&& next == SIG_LEN || SIG_LEN <= next <= rest.len()
            &&& file is Some ==> rest.len() < buf.len()
        }),
    decreases buf.len(),
{
    if buf.len() >= SIG_LEN {
        lemma_found_at(buf, signature(), 0);
        if let Some(j) = found_at(buf, signature(), 0) {
            let from = buf.subrange(j, buf.len() as int);
            let at = if j == 0 {
                pos
            } else {
                SIG_LEN as int
            };
            lemma_chunks_in_range(from, at);
            if chunks(from, at) is Broken {
                lemma_png_shrinks(from.subrange(1, from.len() as int), SIG_LEN as int);
            }
        }
    }
}

proof fn lemma_chunks_in_range(buf: Seq<u8>, at: int)
    requires
        0 <= at,
    ensures
        match chunks(buf, at) {
            Chunks::Whole(end) => at < end <= buf.len(),
            Chunks::Partial(next) => next == at || at < next <= buf.len(),
            Chunks::Broken => true,
        },
    decreases buf.len() - at,
{
    if at + 8 <= buf.len() {
        lemma_chunk_stays(buf, seq![], at);
        if chunk_ok(buf, at) && chunk_end(buf, at) <= buf.len() && !is_iend(buf, at) {
            lemma_chunks_in_range(buf, chunk_end(buf, at));
        }
    }
}

/// How a stream is cut up on its way does not matter for what it yields next.
pub proof fn law_the_next_frame_is_the_same(f: Feed, more: Seq<u8>)
    requires
        f.valid(),
    ensures
        match yielded(f) {
            (Some(frame), g) => yielded(fed(f, more)) == (Some(frame), fed(g, more)),
            (None, g) => yielded(fed(g, more)) == yielded(fed(f, more)),
        },
{
    if f.png {
        law_png_chunking_does_not_matter(f.buf, f.pos, more);
    } else {
        law_raw_chunking_does_not_matter(f.buf, more);
    }
}

/// All the frames that a stream yields until more bytes are needed, and the
/// stream after them.
pub open spec fn drained(f: Feed) -> (Seq<Seq<u8>>, Feed)
    decreases f.buf.len(),
    when f.valid()
{
    proof {
        lemma_yield_shrinks(f);
    }
    match yielded(f) {
        (Some(frame), g) => {
            let (frames, end) = drained(g);
            (seq![frame] + frames, end)
        },
        (None, g) => (seq![], g),
    }
}

/// A stream yields the same frames however it is cut up on its way: those that
/// come before more bytes arrive and those that come after are the frames of
/// all the bytes at once.
pub proof fn law_all_frames_are_the_same(f: Feed, more: Seq<u8>)
    requires
        f.valid(),
    ensures
        ({
            let (before, g) = drained(f);
            let (after, end) = drained(fed(g, more));
            drained(fed(f, more)) == (before + after, end)
        }),
    decreases f.buf.len(),
{
    lemma_yield_shrinks(f);
    law_the_next_frame_is_the_same(f, more);
    match yielded(f) {
        (Some(frame), g) => {
            law_all_frames_are_the_same(g, more);
            let (frames, rest) = drained(g);
            let (after, end) = drained(fed(rest, more));
            lemma_yield_shrinks(fed(f, more));
            assert(seq![frame] + (frames + after) =~= (seq![frame] + frames) + after);
        },
        (None, g) => {
            lemma_yield_shrinks(fed(f, more));
            lemma_yield_shrinks(fed(g, more));
            let (after, end) = drained(fed(g, more));
            assert(seq![] + after =~= after);
        },
    }
}

/// Pieces one behind the other.
pub open spec fn flat(parts: Seq<Seq<u8>>) -> Seq<u8>
    decreases parts.len(),
{
    if parts.len() == 0 {
        seq![]
    } else {
        flat(parts.drop_last()) + parts.last()
    }
}

/// The frames of a stream that arrives in parts, each drained before the next
/// one comes.
pub open spec fn drained_in_parts(f: Feed, parts: Seq<Seq<u8>>) -> (Seq<Seq<u8>>, Feed)
    decreases parts.len(),
{
    if parts.len() == 0 {
        drained(f)
    } else {
        let (before, g) = drained_in_parts(f, parts.drop_last());
        let (after, end) = drained(fed(g, parts.last()));
        (before + after, end)
    }
}

/// However a stream is cut into reads, it yields the frames of all its bytes at
/// once, and ends in the same state.
pub proof fn law_reads_may_be_cut_anywhere(f: Feed, parts: Seq<Seq<u8>>)
    requires
        f.valid(),
    ensures
        drained_in_parts(f, parts) == drained(fed(f, flat(parts))),
    decreases parts.len(),
{
    if parts.len() == 0 {
        assert(f.buf + flat(parts) =~= f.buf);
        assert(fed(f, flat(parts)) == f);
    } else {
        let short = parts.drop_last();
        let g = fed(f, flat(short));
        law_reads_may_be_cut_anywhere(f, short);
        law_all_frames_are_the_same(g, parts.last());
        assert(g.buf + parts.last() =~= f.buf + flat(parts));
        assert(fed(g, parts.last()) == fed(f, flat(parts)));
    }
}

/// A raw frame as the phone sends it: a plausible header, and the pixels that
/// it announces.
pub struct RawFrame {
    pub header: Seq<u8>,
    pub pixels: Seq<u8>,
}

impl RawFrame {
    pub open spec fn valid(self) -> bool {
        &&& self.header.len() == RAW_HDR
        &&& raw_header(self.header, 0) matches Some((w, h))
        &&& self.pixels.len() == w * h * 2
    }

    /// The width and the height in its header.
    pub open spec fn geom(self) -> (u32, u32) {
        let (w, h) = raw_header(self.header, 0)->0;
        (w as u32, h as u32)
    }

    pub open spec fn bytes(self) -> Seq<u8> {
        self.header + self.pixels
    }
}

pub open spec fn all_raw(frames: Seq<RawFrame>) -> bool {
    forall|i: int| 0 <= i < frames.len() ==> (#[trigger] frames[i]).valid()
}

/// Raw frames back to back.
pub open spec fn raw_bytes(frames: Seq<RawFrame>) -> Seq<u8>
    decreases frames.len(),
{
    if frames.len() == 0 {
        seq![]
    } else {
        frames[0].bytes() + raw_bytes(frames.drop_first())
    }
}

pub open spec fn all_pixels(frames: Seq<RawFrame>) -> Seq<Seq<u8>> {
    Seq::new(frames.len(), |i: int| frames[i].pixels)
}

/// A raw stream that these bytes have arrived of.
pub open spec fn raw_feed(geom: Option<(u32, u32)>, buf: Seq<u8>) -> Feed {
    Feed { png: false, geom, buf, pos: SIG_LEN as int }
}

/// The next frame of a raw stream is the pixels of the frame in front, without
/// its header; its geometry becomes the stream's, and the rest stays.
pub proof fn law_the_next_raw_frame(frame: RawFrame, geom: Option<(u32, u32)>, rest: Seq<u8>)
    requires
        frame.valid(),
    ensures
        yielded(raw_feed(geom, frame.bytes() + rest)) == (
            Some(frame.pixels),
            raw_feed(Some(frame.geom()), rest),
        ),
{
    law_a_raw_frame_reads_back(frame.header, frame.pixels, rest);
}

/// A frame that is cut off yields nothing, and stays for the rest to come.
pub proof fn law_a_cut_raw_frame_waits(frame: RawFrame, geom: Option<(u32, u32)>, cut: int)
    requires
        frame.valid(),
        0 <= cut < frame.bytes().len(),
    ensures
        ({
            let f = raw_feed(geom, frame.bytes().subrange(0, cut));
            yielded(f) == (None::<Seq<u8>>, f)
        }),
{
    let b = frame.bytes().subrange(0, cut);
    if cut >= RAW_HDR {
        let (w, h) = raw_header(frame.header, 0)->0;
        assert(frame.header.subrange(0, RAW_HDR as int) =~= frame.header);
        assert(b =~= frame.header + frame.pixels.subrange(0, cut - RAW_HDR));
        lemma_header_stays(frame.header, frame.pixels.subrange(0, cut - RAW_HDR), 0);
        assert(raw_sync(b, 0) == Some(0int));
        assert(b.subrange(0, b.len() as int) =~= b);
    }
}

/// A raw stream yields the pixels of its frames in order, each whole, and then
/// nothing, where it may end inside a frame.
pub proof fn law_a_raw_stream_yields_its_frames(
    frames: Seq<RawFrame>,
    last: RawFrame,
    cut: int,
    geom: Option<(u32, u32)>,
)
    requires
        all_raw(frames),
        last.valid(),
        0 <= cut < last.bytes().len(),
    ensures
        ({
            let tail = last.bytes().subrange(0, cut);
            drained(raw_feed(geom, raw_bytes(frames) + tail)) == (
                all_pixels(frames),
                raw_feed(
                    if frames.len() == 0 {
                        geom
                    } else {
                        Some(frames.last().geom())
                    },
                    tail,
                ),
            )
        }),
    decreases frames.len(),
{
    let tail = last.bytes().subrange(0, cut);
    if frames.len() == 0 {
        assert(raw_bytes(frames) + tail =~= tail);
        law_a_cut_raw_frame_waits(last, geom, cut);
        assert(all_pixels(frames) =~= seq![]);
    } else {
        let rest = frames.drop_first();
        let first = frames[0];
        assert forall|i: int| 0 <= i < rest.len() implies (#[trigger] rest[i]).valid() by {
            assert(rest[i] == frames[i + 1]);
        }
        law_the_next_raw_frame(first, geom, raw_bytes(rest) + tail);
        assert(raw_bytes(frames) + tail =~= first.bytes() + (raw_bytes(rest) + tail));
        law_a_raw_stream_yields_its_frames(rest, last, cut, Some(first.geom()));
        assert(seq![first.pixels] + all_pixels(rest) =~= all_pixels(frames));
    }
}

/// A PNG file: a signature, then chunks up to the one called IEND, which is
/// last.
pub open spec fn is_png(file: Seq<u8>) -> bool {
    &&& file.len() >= SIG_LEN
    &&& file.subrange(0, SIG_LEN as int) == signature()
    &&& chunks(file, SIG_LEN as int) == Chunks::Whole(file.len() as int)
}

pub open spec fn all_png(files: Seq<Seq<u8>>) -> bool {
    forall|i: int| 0 <= i < files.len() ==> is_png(#[trigger] files[i])
}

/// Files back to back.
pub open spec fn png_bytes(files: Seq<Seq<u8>>) -> Seq<u8>
    decreases files.len(),
{
    if files.len() == 0 {
        seq![]
    } else {
        files[0] + png_bytes(files.drop_first())
    }
}

/// A PNG stream that these bytes have arrived of.
pub open spec fn png_feed(geom: Option<(u32, u32)>, buf: Seq<u8>) -> Feed {
    Feed { png: true, geom, buf, pos: SIG_LEN as int }
}

/// A PNG stream yields its files in order, each whole, and then nothing,
/// whatever damage stands before the first signature.
pub proof fn law_a_png_stream_yields_its_files(
    damage: Seq<u8>,
    files: Seq<Seq<u8>>,
    geom: Option<(u32, u32)>,
)
    requires
        all_png(files),
        files.len() > 0,
        forall|i: int|
            0 <= i < damage.len() ==> #[trigger] (damage + files[0]).subrange(i, i + SIG_LEN)
                != signature(),
    ensures
        drained(png_feed(geom, damage + png_bytes(files))) == (files, png_feed(geom, seq![])),
    decreases files.len(),
{
    let first = files[0];
    let rest = files.drop_first();
    let left = png_bytes(rest);
    let all = damage + first + left;
    assert(is_png(first));
    assert(damage + png_bytes(files) =~= all);
    assert forall|i: int| 0 <= i < damage.len() implies #[trigger] all.subrange(i, i + SIG_LEN)
        != signature() by {
        assert(all.subrange(i, i + SIG_LEN) =~= (damage + first).subrange(i, i + SIG_LEN));
    }
    law_a_damaged_png_stream_resyncs(damage, first, left);
    lemma_yield_shrinks(png_feed(geom, all));
    if rest.len() == 0 {
        assert(left =~= seq![]);
        let end = png_feed(geom, seq![]);
        assert(yielded(end) == (None::<Seq<u8>>, end));
        assert(drained(end) == (Seq::<Seq<u8>>::empty(), end));
        assert(seq![first] + Seq::<Seq<u8>>::empty() =~= files);
    } else {
        assert forall|i: int| 0 <= i < rest.len() implies is_png(#[trigger] rest[i]) by {
            assert(rest[i] == files[i + 1]);
        }
        law_a_png_stream_yields_its_files(seq![], rest, geom);
        assert(seq![] + left =~= left);
        assert(seq![first] + rest =~= files);
    }
}

proof fn lemma_le_word(buf: Seq<u8>, at: int, n: u32)
    requires
        0 <= at,
        at + 4 <= buf.len(),
        buf.subrange(at, at + 4) == seq![
            (n % 256) as u8,
            (n / 256 % 256) as u8,
            (n / 65536 % 256) as u8,
            (n / 16777216) as u8,
        ],
    ensures
        le_word(buf, at) == n,
{
    let there = buf.subrange(at, at + 4);
    assert(there[0] == buf[at] && there[1] == buf[at + 1] && there[2] == buf[at + 2] && there[3]
        == buf[at + 3]);
}

/// A raw header is four words, the low byte of each first: the width and the
/// height, each from 1 to 1024, a format below 64, and one to four planes.
/// Nothing else is one, wherever it stands.
pub proof fn law_what_a_raw_header_says(
    before: Seq<u8>,
    w: u32,
    h: u32,
    fmt: u32,
    planes: u32,
    rest: Seq<u8>,
)
    ensures
        raw_header(
            before + seq![
                (w % 256) as u8,
                (w / 256 % 256) as u8,
                (w / 65536 % 256) as u8,
                (w / 16777216) as u8,
            ] + seq![
                (h % 256) as u8,
                (h / 256 % 256) as u8,
                (h / 65536 % 256) as u8,
                (h / 16777216) as u8,
            ] + seq![
                (fmt % 256) as u8,
                (fmt / 256 % 256) as u8,
                (fmt / 65536 % 256) as u8,
                (fmt / 16777216) as u8,
            ] + seq![
                (planes % 256) as u8,
                (planes / 256 % 256) as u8,
                (planes / 65536 % 256) as u8,
                (planes / 16777216) as u8,
            ] + rest,
            before.len() as int,
        ) == (if 1 <= w <= 1024 && 1 <= h <= 1024 && fmt < 64 && 1 <= planes <= 4 {
            Some((w as int, h as int))
        } else {
            None
        }),
{
    let a = seq![
        (w % 256) as u8,
        (w / 256 % 256) as u8,
        (w / 65536 % 256) as u8,
        (w / 16777216) as u8,
    ];
    let b = seq![
        (h % 256) as u8,
        (h / 256 % 256) as u8,
        (h / 65536 % 256) as u8,
        (h / 16777216) as u8,
    ];
    let c = seq![
        (fmt % 256) as u8,
        (fmt / 256 % 256) as u8,
        (fmt / 65536 % 256) as u8,
        (fmt / 16777216) as u8,
    ];
    let d = seq![
        (planes % 256) as u8,
        (planes / 256 % 256) as u8,
        (planes / 65536 % 256) as u8,
        (planes / 16777216) as u8,
    ];
    let all = before + a + b + c + d + rest;
    let at = before.len() as int;
    assert(all.subrange(at, at + 4) =~= a);
    assert(all.subrange(at + 4, at + 4 + 4) =~= b);
    assert(all.subrange(at + 8, at + 8 + 4) =~= c);
    assert(all.subrange(at + 12, at + 12 + 4) =~= d);
    lemma_le_word(all, at, w);
    lemma_le_word(all, at + 4, h);
    lemma_le_word(all, at + 8, fmt);
    lemma_le_word(all, at + 12, planes);
}

/// One chunk of a PNG file.
pub struct Chunk {
    /// Its type, four letters.
    pub kind: Seq<u8>,
    pub data: Seq<u8>,
    /// Its check sum.
    pub sum: Seq<u8>,
}

impl Chunk {
    pub open spec fn valid(self) -> bool {
        &&& self.kind.len() == 4
        &&& forall|i: int|
            0 <= i < 4 ==> 65 <= #[trigger] self.kind[i] <= 90 || 97 <= self.kind[i] <= 122
        &&& self.data.len() <= 16777216
        &&& self.sum.len() == 4
    }

    pub open spec fn is_last(self) -> bool {
        self.kind =~= seq![0x49u8, 0x45u8, 0x4eu8, 0x44u8]
    }

    /// Its length, the high byte first, then the rest of it.
    pub open spec fn bytes(self) -> Seq<u8> {
        let n = self.data.len() as int;
        seq![
            (n / 16777216) as u8,
            (n / 65536 % 256) as u8,
            (n / 256 % 256) as u8,
            (n % 256) as u8,
        ] + self.kind + self.data + self.sum
    }
}

/// Chunks back to back.
pub open spec fn chunk_bytes(parts: Seq<Chunk>) -> Seq<u8>
    decreases parts.len(),
{
    if parts.len() == 0 {
        seq![]
    } else {
        parts[0].bytes() + chunk_bytes(parts.skip(1))
    }
}

proof fn lemma_chunk_in_place(buf: Seq<u8>, at: int, c: Chunk)
    requires
        0 <= at,
        at + c.bytes().len() <= buf.len(),
        buf.subrange(at, at + c.bytes().len()) == c.bytes(),
        c.valid(),
    ensures
        c.bytes().len() == c.data.len() + 12,
        chunk_ok(buf, at),
        chunk_end(buf, at) == at + c.bytes().len(),
        is_iend(buf, at) == c.is_last(),
{
    let b = c.bytes();
    let n = c.data.len() as int;
    let there = buf.subrange(at, at + b.len());
    assert forall|i: int| 0 <= i < b.len() implies #[trigger] buf[at + i] == b[i] by {
        assert(there[i] == b[i]);
    }
    assert(buf[at + 0] == b[0]);
    assert(b[4] == c.kind[0] && b[5] == c.kind[1] && b[6] == c.kind[2] && b[7] == c.kind[3]);
    assert(be_word(buf, at) == n);
    assert(buf[at + 4] == c.kind[0] && buf[at + 5] == c.kind[1] && buf[at + 6] == c.kind[2] && buf[
    at + 7] == c.kind[3]);
}

proof fn lemma_chunks_in_place(buf: Seq<u8>, at: int, parts: Seq<Chunk>)
    requires
        0 <= at <= buf.len(),
        buf.subrange(at, buf.len() as int) == chunk_bytes(parts),
        parts.len() > 0,
        forall|i: int| 0 <= i < parts.len() ==> (#[trigger] parts[i]).valid(),
        forall|i: int| 0 <= i < parts.len() - 1 ==> !(#[trigger] parts[i]).is_last(),
        parts.last().is_last(),
    ensures
        chunks(buf, at) == Chunks::Whole(buf.len() as int),
    decreases parts.len(),
{
    let b = parts[0].bytes();
    let rest = parts.skip(1);
    let there = buf.subrange(at, buf.len() as int);
    let next = at + b.len();
    assert(parts[0].valid());
    assert(there == b + chunk_bytes(rest));
    assert(buf.subrange(at, next) =~= b) by {
        assert(there.subrange(0, b.len() as int) =~= b);
    }
    lemma_chunk_in_place(buf, at, parts[0]);
    assert(buf.subrange(next, buf.len() as int) =~= chunk_bytes(rest)) by {
        assert(there.subrange(b.len() as int, there.len() as int) =~= chunk_bytes(rest));
    }
    if parts.len() == 1 {
        assert(parts.last() == parts[0]);
        assert(chunk_bytes(rest) =~= seq![]);
        assert(there.len() == b.len());
    } else {
        assert forall|i: int| 0 <= i < rest.len() implies (#[trigger] rest[i]).valid() by {
            assert(rest[i] == parts[i + 1]);
        }
        assert forall|i: int| 0 <= i < rest.len() - 1 implies !(#[trigger] rest[i]).is_last() by {
            assert(rest[i] == parts[i + 1]);
        }
        assert(rest.last() == parts.last());
        lemma_chunks_in_place(buf, next, rest);
    }
}

/// Any chunks whose types are four letters and whose data is no longer than
/// sixteen mebibytes make a PNG file behind the signature, with the one called
/// IEND as the last and only there.
pub proof fn law_chunks_make_a_file(parts: Seq<Chunk>)
    requires
        parts.len() > 0,
        forall|i: int| 0 <= i < parts.len() ==> (#[trigger] parts[i]).valid(),
        forall|i: int| 0 <= i < parts.len() - 1 ==> !(#[trigger] parts[i]).is_last(),
        parts.last().is_last(),
    ensures
        is_png(
            seq![0x89u8, 0x50u8, 0x4eu8, 0x47u8, 0x0du8, 0x0au8, 0x1au8, 0x0au8] + chunk_bytes(
                parts,
            ),
        ),
{
    let head = seq![0x89u8, 0x50u8, 0x4eu8, 0x47u8, 0x0du8, 0x0au8, 0x1au8, 0x0au8];
    let file = head + chunk_bytes(parts);
    assert(file.subrange(0, 8) =~= head);
    assert(file.subrange(8, file.len() as int) =~= chunk_bytes(parts));
    lemma_chunks_in_place(file, 8, parts);
}

/// A chunk that claims to be longer than sixteen mebibytes, or whose type holds
/// anything but letters, breaks the file it is in.
pub proof fn law_a_chunk_that_cannot_be(buf: Seq<u8>, at: int, n: u32, kind: Seq<u8>, k: int)
    requires
        0 <= at,
        at + 8 <= buf.len(),
        kind.len() == 4,
        0 <= k < 4,
        buf.subrange(at, at + 8) == seq![
            (n / 16777216) as u8,
            (n / 65536 % 256) as u8,
            (n / 256 % 256) as u8,
            (n % 256) as u8,
        ] + kind,
        n > 16777216 || !(65 <= kind[k] <= 90 || 97 <= kind[k] <= 122),
    ensures
        chunks(buf, at) is Broken,
{
    let head = seq![
        (n / 16777216) as u8,
        (n / 65536 % 256) as u8,
        (n / 256 % 256) as u8,
        (n % 256) as u8,
    ] + kind;
    let there = buf.subrange(at, at + 8);
    assert forall|i: int| 0 <= i < 8 implies #[trigger] buf[at + i] == head[i] by {
        assert(there[i] == head[i]);
    }
    assert(buf[at + 0] == head[0]);
    assert(be_word(buf, at) == n);
    assert(buf[at + 4] == kind[0] && buf[at + 5] == kind[1] && buf[at + 6] == kind[2] && buf[at + 7]
        == kind[3]);
}

/// A file that breaks off in damage is given up, and the next one is found
/// behind it: what is broken yields nothing and costs no other file.
pub proof fn law_a_broken_file_costs_no_other(damaged: Seq<u8>, file: Seq<u8>, rest: Seq<u8>)
    requires
        damaged.len() >= 8,
        damaged.take(8) == signature(),
        is_png(file),
        chunks(damaged + file + rest, 8) is Broken,
        forall|i: int|
            1 <= i < damaged.len() ==> #[trigger] (damaged + file + rest).subrange(i, i + 8)
                != signature(),
    ensures
        png_next(damaged + file + rest, 8) == (Some(file), rest, 8int),
{
    let all = damaged + file + rest;
    let junk = damaged.skip(1);
    let next = junk + file + rest;
    assert(all.subrange(0, 0 + signature().len() as int) =~= signature()) by {
        assert(damaged.take(8) =~= all.subrange(0, 8));
    }
    assert(found_at(all, signature(), 0) == Some(0int));
    assert(all.subrange(0, all.len() as int) =~= all);
    assert(all.subrange(1, all.len() as int) =~= next);
    assert forall|i: int| 0 <= i < junk.len() implies #[trigger] next.subrange(i, i + SIG_LEN)
        != signature() by {
        assert(next.subrange(i, i + SIG_LEN) =~= all.subrange(i + 1, i + 1 + 8));
    }
    law_a_damaged_png_stream_resyncs(junk, file, rest);
}

} // verus!
