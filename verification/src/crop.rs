//! The mode indicator of the status bar as a mask of ink.
use vstd::prelude::*;

verus! {

/// The panel width that the indicator's box is given for.
pub const REF_W: u64 = 240;

/// The indicator's box on that panel: left, top, right and bottom.  Wide
/// enough for the two mode characters and no wider: what is further right
/// changes on its own.
pub const BOX_LEFT: u64 = 26;

pub const BOX_TOP: u64 = 0;

pub const BOX_RIGHT: u64 = 43;

pub const BOX_BOTTOM: u64 = 20;

/// The luminance range a crop must span before it is believed to hold text.
pub const MIN_CONTRAST: u8 = 60;

/// An ink mask: rows of pixels, true where a glyph is.
pub struct Mask {
    pub w: int,
    pub h: int,
    pub ink: Seq<bool>,
}

impl Mask {
    /// The mask has the pixels of a box of its size, and at least one.
    pub open spec fn valid(self) -> bool {
        &&& self.w > 0
        &&& self.h > 0
        &&& self.ink.len() == self.w * self.h
        &&& 0 < self.ink.len() <= usize::MAX
    }

    pub open spec fn at(self, x: int, y: int) -> bool {
        self.ink[y * self.w + x]
    }
}

/// The mode indicator cut out of a frame.
pub struct Crop {
    w: usize,
    h: usize,
    ink: Vec<u8>,
}

impl View for Crop {
    type V = Mask;

    closed spec fn view(&self) -> Mask {
        Mask {
            w: self.w as int,
            h: self.h as int,
            ink: Seq::new(self.ink@.len(), |i: int| self.ink@[i] == 1),
        }
    }
}

/// How many of the flags are set.
pub open spec fn count(flags: Seq<bool>) -> nat
    decreases flags.len(),
{
    if flags.len() == 0 {
        0
    } else if flags.last() {
        count(flags.drop_last()) + 1
    } else {
        count(flags.drop_last())
    }
}

pub proof fn lemma_count_push(flags: Seq<bool>, b: bool)
    ensures
        count(flags.push(b)) == count(flags) + (if b {
            1nat
        } else {
            0nat
        }),
{
    assert(flags.push(b).drop_last() =~= flags);
}

pub proof fn lemma_count_none(flags: Seq<bool>)
    requires
        forall|i: int| 0 <= i < flags.len() ==> !#[trigger] flags[i],
    ensures
        count(flags) == 0,
    decreases flags.len(),
{
    if flags.len() > 0 {
        assert(!flags[flags.len() - 1]);
        lemma_count_none(flags.drop_last());
    }
}

/// An edge of the box on a panel of width `w`.
pub open spec fn scaled(edge: int, w: int) -> int {
    edge * w / (REF_W as int)
}

/// A rough luminance of an RGB565 pixel; only that text and background stay
/// far apart matters.
pub open spec fn luminance(lo: u8, hi: u8) -> int {
    let px = lo as int + 256 * hi as int;
    let r = px / 2048;
    let g = px / 32 % 64;
    let b = px % 32;
    (r * 8 * 30 + g * 4 * 59 + b * 8 * 11) / 100
}

/// The luminance of the pixel at (`x`, `y`) of an RGB565 frame of width `w`.
pub open spec fn lum_at(frame: Seq<u8>, w: int, x: int, y: int) -> int {
    luminance(frame[(y * w + x) * 2], frame[(y * w + x) * 2 + 1])
}

/// The luminances of the indicator's box, row by row.
pub open spec fn box_lums(frame: Seq<u8>, w: int) -> Seq<int> {
    let left = scaled(BOX_LEFT as int, w);
    let top = scaled(BOX_TOP as int, w);
    let bw = scaled(BOX_RIGHT as int, w) - left;
    let bh = scaled(BOX_BOTTOM as int, w) - top;
    Seq::new((bw * bh) as nat, |i: int| lum_at(frame, w, left + i % bw, top + i / bw))
}

/// Which pixels are brighter than midway between the darkest and the
/// brightest.
pub open spec fn bright(lums: Seq<int>) -> Seq<bool> {
    let cut = (lums.min() + lums.max()) / 2;
    Seq::new(lums.len(), |i: int| lums[i] > cut)
}

/// The ink of a crop: the minority of the two classes, since the bar is drawn
/// dark on light as well as light on dark.
pub open spec fn ink_of(lums: Seq<int>) -> Seq<bool> {
    let lit = bright(lums);
    let inverted = count(lit) * 2 > lit.len();
    Seq::new(lit.len(), |i: int| lit[i] != inverted)
}

/// What `crop` finds in a frame: nothing where the box does not fit, the frame
/// is short, or the box is too flat to hold text.
pub open spec fn cropped(frame: Seq<u8>, w: int, h: int) -> Option<Mask> {
    let lums = box_lums(frame, w);
    if scaled(BOX_BOTTOM as int, w) > h || frame.len() < w * h * 2 || lums.len() == 0 {
        None
    } else if lums.max() - lums.min() < MIN_CONTRAST {
        None
    } else {
        Some(
            Mask {
                w: scaled(BOX_RIGHT as int, w) - scaled(BOX_LEFT as int, w),
                h: scaled(BOX_BOTTOM as int, w) - scaled(BOX_TOP as int, w),
                ink: ink_of(lums),
            },
        )
    }
}

fn luminance_of(lo: u8, hi: u8) -> (l: u8)
    ensures
        l as int == luminance(lo, hi),
        l <= 250,
{
    let px: u32 = lo as u32 + 256 * hi as u32;
    let r: u32 = px / 2048;
    let g: u32 = px / 32 % 64;
    let b: u32 = px % 32;
    proof {
        assert(r <= 31 && g <= 63 && b <= 31);
    }
    ((r * 8 * 30 + g * 4 * 59 + b * 8 * 11) / 100) as u8
}

proof fn lemma_pixel_in_frame(x: int, y: int, w: int, h: int)
    requires
        0 <= x < w,
        0 <= y < h,
    ensures
        0 <= y * w,
        0 <= y * w + x < w * h,
{
    assert(0 <= y * w && 0 <= y * w + x < w * h) by (nonlinear_arith)
        requires
            0 <= x < w,
            0 <= y < h,
    ;
}

proof fn lemma_box_index(i: int, bw: int, bh: int)
    requires
        0 <= i < bw * bh,
        bw >= 0,
    ensures
        bw > 0,
        0 <= i % bw < bw,
        0 <= i / bw < bh,
{
    assert(bw > 0) by (nonlinear_arith)
        requires
            0 <= i < bw * bh,
            bw >= 0,
    ;
    assert(0 <= i % bw < bw && 0 <= i / bw < bh) by (nonlinear_arith)
        requires
            0 <= i < bw * bh,
            bw > 0,
    ;
}

/// The luminances of the indicator's box.
fn luminances(frame: &[u8], w: u32, h: u32) -> (lums: Vec<u8>)
    requires
        frame@.len() >= w * h * 2,
        scaled(BOX_BOTTOM as int, w as int) <= h,
    ensures
        lums@.len() == box_lums(frame@, w as int).len(),
        forall|i: int|
            0 <= i < lums@.len() ==> #[trigger] lums@[i] as int == box_lums(frame@, w as int)[i],
        forall|i: int| 0 <= i < lums@.len() ==> #[trigger] lums@[i] <= 250,
{
    let left: u64 = BOX_LEFT * (w as u64) / REF_W;
    let top: u64 = BOX_TOP * (w as u64) / REF_W;
    let bw: u64 = BOX_RIGHT * (w as u64) / REF_W - left;
    let bh: u64 = BOX_BOTTOM * (w as u64) / REF_W - top;
    let ghost want = box_lums(frame@, w as int);
    let len: usize = frame.len();
    proof {
        assert(bw <= w && bh <= w && w <= 0xffff_ffff);
        assert(0 <= bw * bh <= w * h) by (nonlinear_arith)
            requires
                0 <= bw <= w,
                0 <= bh <= h,
        ;
        assert(bw * bh <= len);
    }
    let n: u64 = bw * bh;
    let mut lums: Vec<u8> = Vec::new();
    let mut i: u64 = 0;
    while i < n
        invariant
            i <= n,
            n == bw * bh,
            n == want.len(),
            want == box_lums(frame@, w as int),
            left == scaled(BOX_LEFT as int, w as int),
            top == scaled(BOX_TOP as int, w as int),
            left + bw == scaled(BOX_RIGHT as int, w as int),
            top + bh == scaled(BOX_BOTTOM as int, w as int),
            left + bw <= w,
            top + bh <= h,
            usize::MAX >= frame@.len() >= w * h * 2,
            lums@.len() == i,
            forall|j: int| 0 <= j < i ==> #[trigger] lums@[j] as int == want[j],
            forall|j: int| 0 <= j < i ==> #[trigger] lums@[j] <= 250,
        decreases n - i,
    {
        proof {
            lemma_box_index(i as int, bw as int, bh as int);
        }
        let x: u64 = left + i % bw;
        let y: u64 = top + i / bw;
        proof {
            lemma_pixel_in_frame(x as int, y as int, w as int, h as int);
            assert(x == left + i as int % (bw as int));
        }
        let at: usize = ((y * (w as u64) + x) * 2) as usize;
        lums.push(luminance_of(frame[at], frame[at + 1]));
        i = i + 1;
    }
    lums
}

spec fn ints(v: Seq<u8>) -> Seq<int> {
    v.map_values(|x: u8| x as int)
}

/// The darkest and the brightest of some pixels.
fn bounds(lums: &Vec<u8>) -> (range: (u8, u8))
    requires
        lums@.len() > 0,
    ensures
        range.0 as int == ints(lums@).min(),
        range.1 as int == ints(lums@).max(),
        range.0 <= range.1,
{
    let mut low: u8 = lums[0];
    let mut high: u8 = lums[0];
    let mut i: usize = 1;
    while i < lums.len()
        invariant
            1 <= i <= lums@.len(),
            forall|j: int| 0 <= j < i ==> low <= #[trigger] lums@[j] <= high,
            lums@.contains(low),
            lums@.contains(high),
            low <= high,
        decreases lums@.len() - i,
    {
        if lums[i] < low {
            low = lums[i];
        }
        if lums[i] > high {
            high = lums[i];
        }
        i = i + 1;
    }
    proof {
        let s = ints(lums@);
        s.min_ensures();
        s.max_ensures();
        let a = s.index_of(s.min());
        let b = s.index_of(s.max());
        assert(lums@[a] as int == s.min() && lums@[b] as int == s.max());
        let c = lums@.index_of(low);
        let d = lums@.index_of(high);
        assert(s[c] == low && s[d] == high);
    }
    (low, high)
}

/// 1 where the ink is, 0 elsewhere.
fn ink_mask(lums: &Vec<u8>, low: u8, high: u8) -> (ink: Vec<u8>)
    requires
        lums@.len() > 0,
        low as int == ints(lums@).min(),
        high as int == ints(lums@).max(),
    ensures
        ink@.len() == lums@.len(),
        forall|i: int|
            0 <= i < ink@.len() ==> (#[trigger] ink@[i] == 1) == ink_of(ints(lums@))[i],
{
    let cut: u8 = ((low as u32 + high as u32) / 2) as u8;
    let ghost lit_flags = bright(ints(lums@));
    let n: usize = lums.len();
    let mut lit: usize = 0;
    let mut i: usize = 0;
    while i < n
        invariant
            i <= n,
            n == lums@.len(),
            lit_flags == bright(ints(lums@)),
            cut as int == (ints(lums@).min() + ints(lums@).max()) / 2,
            lit == count(lit_flags.subrange(0, i as int)),
            lit <= i,
        decreases n - i,
    {
        proof {
            assert(lit_flags.subrange(0, i as int + 1) =~= lit_flags.subrange(0, i as int).push(
                lit_flags[i as int],
            ));
            lemma_count_push(lit_flags.subrange(0, i as int), lit_flags[i as int]);
        }
        if lums[i] > cut {
            lit = lit + 1;
        }
        i = i + 1;
    }
    proof {
        assert(lit_flags.subrange(0, n as int) =~= lit_flags);
    }
    let inverted: bool = lit > n - lit;
    let mut ink: Vec<u8> = Vec::new();
    i = 0;
    while i < n
        invariant
            i <= n,
            n == lums@.len(),
            lit_flags == bright(ints(lums@)),
            cut as int == (ints(lums@).min() + ints(lums@).max()) / 2,
            inverted == (count(lit_flags) * 2 > n),
            ink@.len() == i,
            forall|j: int|
                0 <= j < i ==> (#[trigger] ink@[j] == 1) == ink_of(ints(lums@))[j],
        decreases n - i,
    {
        let on: bool = lums[i] > cut;
        if on != inverted {
            ink.push(1);
        } else {
            ink.push(0);
        }
        i = i + 1;
    }
    ink
}

/// Pull the indicator out of an RGB565 frame as an ink mask.
pub fn crop(frame: &[u8], w: u32, h: u32) -> (found: Option<Crop>)
    ensures
        match found {
            Some(c) => cropped(frame@, w as int, h as int) == Some(c@) && c@.valid(),
            None => cropped(frame@, w as int, h as int) is None,
        },
{
    let ghost want = box_lums(frame@, w as int);
    proof {
        assert(0 <= w * h <= 0xffff_ffff * 0xffff_ffff) by (nonlinear_arith)
            requires
                0 <= w <= 0xffff_ffffu32,
                0 <= h <= 0xffff_ffffu32,
        ;
    }
    let area: u128 = w as u128 * h as u128 * 2;
    let bottom: u64 = BOX_BOTTOM * (w as u64) / REF_W;
    if bottom > h as u64 || (frame.len() as u128) < area {
        return None;
    }
    let lums = luminances(frame, w, h);
    let n: usize = lums.len();
    if n == 0 {
        return None;
    }
    let (low, high) = bounds(&lums);
    proof {
        let seen = lums@.map_values(|v: u8| v as int);
        assert(seen =~= want);
    }
    if high - low < MIN_CONTRAST {
        return None;
    }
    let ink = ink_mask(&lums, low, high);
    let left: u64 = BOX_LEFT * (w as u64) / REF_W;
    let top: u64 = BOX_TOP * (w as u64) / REF_W;
    let right: u64 = BOX_RIGHT * (w as u64) / REF_W;
    let found = Crop { w: (right - left) as usize, h: (bottom - top) as usize, ink };
    proof {
        assert(found@.ink =~= ink_of(want));
    }
    Some(found)
}

/// The ink is never more than half of the crop: glyphs are the minority of
/// the pixels, whichever way round the bar is drawn.
pub proof fn law_ink_is_the_minority(frame: Seq<u8>, w: int, h: int)
    ensures
        cropped(frame, w, h) matches Some(m) ==> count(m.ink) * 2 <= m.ink.len(),
{
    if let Some(m) = cropped(frame, w, h) {
        let lit = bright(box_lums(frame, w));
        if count(lit) * 2 > lit.len() {
            lemma_count_flipped(lit, m.ink);
        } else {
            assert(m.ink =~= lit);
        }
    }
}

proof fn lemma_count_flipped(a: Seq<bool>, b: Seq<bool>)
    requires
        a.len() == b.len(),
        forall|i: int| 0 <= i < a.len() ==> #[trigger] b[i] == !a[i],
    ensures
        count(a) + count(b) == a.len(),
    decreases a.len(),
{
    if a.len() > 0 {
        assert(b[a.len() - 1] == !a[a.len() - 1]);
        lemma_count_flipped(a.drop_last(), b.drop_last());
    }
}

/// Whether column `x` holds any ink.
pub open spec fn inked(m: Mask, x: int) -> bool {
    exists|y: int| 0 <= y < m.h && #[trigger] m.at(x, y)
}

/// Whether column `x` belongs to a glyph: it holds ink, or it is a gap one
/// column wide between two that do.  At this size the letters have thin waists.
pub open spec fn solid(m: Mask, x: int) -> bool {
    inked(m, x) || (0 < x && x + 1 < m.w && inked(m, x - 1) && inked(m, x + 1))
}

pub open spec fn columns(m: Mask) -> Seq<bool> {
    Seq::new(m.w as nat, |x: int| solid(m, x))
}

/// Where the run of set flags that starts at `x` ends.
pub open spec fn run_end(cols: Seq<bool>, x: int) -> int
    decreases cols.len() - x,
{
    if x < cols.len() && cols[x] {
        run_end(cols, x + 1)
    } else {
        x
    }
}

pub proof fn lemma_run_end(cols: Seq<bool>, x: int)
    requires
        0 <= x <= cols.len(),
    ensures
        x <= run_end(cols, x) <= cols.len(),
        x < cols.len() && cols[x] ==> x < run_end(cols, x),
        forall|i: int| x <= i < run_end(cols, x) ==> cols[i],
        run_end(cols, x) < cols.len() ==> !cols[run_end(cols, x)],
    decreases cols.len() - x,
{
    if x < cols.len() && cols[x] {
        lemma_run_end(cols, x + 1);
    }
}

/// The runs of set flags from `x` on, each as its first index and the one
/// after its last.
pub open spec fn runs(cols: Seq<bool>, x: int) -> Seq<(int, int)>
    decreases cols.len() - x,
{
    if x < 0 || x >= cols.len() {
        seq![]
    } else if !cols[x] {
        runs(cols, x + 1)
    } else {
        proof {
            lemma_run_end(cols, x);
        }
        let end = run_end(cols, x);
        seq![(x, end)] + runs(cols, end)
    }
}

/// The column runs of ink, which for this text are the glyphs.
pub open spec fn glyphs(m: Mask) -> Seq<(int, int)> {
    runs(columns(m), 0)
}

/// The first row at or after `y` with ink in the columns of a run.
pub open spec fn top_from(m: Mask, run: (int, int), y: int) -> Option<int>
    decreases m.h - y,
{
    if y >= m.h {
        None
    } else if exists|x: int| run.0 <= x < run.1 && #[trigger] m.at(x, y) {
        Some(y)
    } else {
        top_from(m, run, y + 1)
    }
}

pub open spec fn top_of(m: Mask, run: (int, int)) -> Option<int> {
    top_from(m, run, 0)
}

/// The lowercase indicator: its first glyph starts at least two rows below the
/// second.
pub open spec fn looks_lowercase(m: Mask) -> bool {
    let gs = glyphs(m);
    gs.len() >= 2 && match (top_of(m, gs[0]), top_of(m, gs[1])) {
        (Some(first), Some(second)) => first >= second + 2,
        _ => false,
    }
}

/// The pixels in which two masks of one size differ.
pub open spec fn differing(a: Mask, b: Mask) -> Seq<bool> {
    Seq::new(b.ink.len(), |i: int| a.ink[i] != b.ink[i])
}

/// How different `a` is from `b`, as a number of `b`'s pixels: all of them for
/// a mask of another size.
pub open spec fn distance(a: Mask, b: Mask) -> int {
    if a.w != b.w || a.h != b.h {
        b.ink.len() as int
    } else {
        count(differing(a, b)) as int
    }
}

/// The picture of a mask: a row per line.
pub open spec fn rendered(m: Mask) -> Seq<char> {
    Seq::new(
        (m.h * (m.w + 1)) as nat,
        |i: int|
            if i % (m.w + 1) == m.w {
                '\n'
            } else if m.at(i % (m.w + 1), i / (m.w + 1)) {
                '#'
            } else {
                '.'
            },
    )
}

pub open spec fn run_of(run: (usize, usize)) -> (int, int) {
    (run.0 as int, run.1 as int)
}

pub open spec fn runs_of(v: Seq<(usize, usize)>) -> Seq<(int, int)> {
    v.map_values(|r: (usize, usize)| run_of(r))
}

impl Crop {
    /// How many pixels the crop has.
    pub fn pixels(&self) -> (n: usize)
        ensures
            n == self@.ink.len(),
    {
        self.ink.len()
    }

    /// How many of them hold ink.
    pub fn inked_pixels(&self) -> (k: usize)
        requires
            self@.valid(),
        ensures
            k == count(self@.ink),
            k <= self@.ink.len(),
    {
        let n: usize = self.ink.len();
        let ghost flags = self@.ink;
        let mut k: usize = 0;
        let mut i: usize = 0;
        while i < n
            invariant
                i <= n,
                k <= i,
                n == self.ink@.len(),
                flags == self@.ink,
                k == count(flags.subrange(0, i as int)),
            decreases n - i,
        {
            proof {
                assert(flags.subrange(0, i as int + 1) =~= flags.subrange(0, i as int).push(
                    flags[i as int],
                ));
                lemma_count_push(flags.subrange(0, i as int), flags[i as int]);
            }
            if self.ink[i] == 1 {
                k = k + 1;
            }
            i = i + 1;
        }
        proof {
            assert(flags.subrange(0, n as int) =~= flags);
        }
        k
    }

    pub fn at(&self, x: usize, y: usize) -> (on: bool)
        requires
            self@.valid(),
            x < self@.w,
            y < self@.h,
        ensures
            on == self@.at(x as int, y as int),
    {
        proof {
            lemma_pixel_in_frame(x as int, y as int, self.w as int, self.h as int);
        }
        self.ink[y * self.w + x] == 1
    }

    fn inked(&self, x: usize) -> (any: bool)
        requires
            self@.valid(),
            x < self@.w,
        ensures
            any == inked(self@, x as int),
    {
        let mut y: usize = 0;
        while y < self.h
            invariant
                self@.valid(),
                x < self@.w,
                y <= self.h,
                forall|j: int| 0 <= j < y ==> !#[trigger] self@.at(x as int, j),
            decreases self.h - y,
        {
            if self.at(x, y) {
                return true;
            }
            y = y + 1;
        }
        false
    }

    /// Which columns belong to a glyph.
    fn columns(&self) -> (cols: Vec<bool>)
        requires
            self@.valid(),
        ensures
            cols@ == columns(self@),
    {
        let mut cols: Vec<bool> = Vec::new();
        let mut x: usize = 0;
        while x < self.w
            invariant
                self@.valid(),
                x <= self.w,
                cols@ == columns(self@).subrange(0, x as int),
            decreases self.w - x,
        {
            let on: bool = self.inked(x) || (0 < x && x + 1 < self.w && self.inked(x - 1)
                && self.inked(x + 1));
            cols.push(on);
            x = x + 1;
            proof {
                assert(cols@ =~= columns(self@).subrange(0, x as int));
            }
        }
        proof {
            assert(cols@ =~= columns(self@));
        }
        cols
    }

    /// The column runs of ink, which for this text are the glyphs.
    pub fn glyphs(&self) -> (found: Vec<(usize, usize)>)
        requires
            self@.valid(),
        ensures
            runs_of(found@) == glyphs(self@),
            forall|i: int|
                0 <= i < found@.len() ==> (#[trigger] found@[i]).0 < found@[i].1 <= self@.w,
    {
        let cols = self.columns();
        let mut found: Vec<(usize, usize)> = Vec::new();
        let mut x: usize = 0;
        proof {
            assert(runs_of(found@) + runs(cols@, 0) =~= glyphs(self@));
        }
        while x < cols.len()
            invariant
                cols@ == columns(self@),
                cols@.len() == self@.w,
                x <= cols@.len(),
                runs_of(found@) + runs(cols@, x as int) == glyphs(self@),
                forall|i: int|
                    0 <= i < found@.len() ==> (#[trigger] found@[i]).0 < found@[i].1 <= self@.w,
            decreases cols@.len() - x,
        {
            if !cols[x] {
                x = x + 1;
            } else {
                let start: usize = x;
                while x < cols.len() && cols[x]
                    invariant
                        start <= x <= cols@.len(),
                        run_end(cols@, start as int) == run_end(cols@, x as int),
                    decreases cols@.len() - x,
                {
                    x = x + 1;
                }
                let ghost before = runs_of(found@);
                found.push((start, x));
                proof {
                    lemma_run_end(cols@, start as int);
                    assert(runs_of(found@) =~= before.push((start as int, x as int)));
                    assert(runs_of(found@) + runs(cols@, x as int) =~= before + runs(
                        cols@,
                        start as int,
                    ));
                }
            }
        }
        proof {
            assert(runs_of(found@) + runs(cols@, cols@.len() as int) =~= runs_of(found@));
        }
        found
    }

    /// The first row with ink in the columns of a run.
    pub fn top_of(&self, run: (usize, usize)) -> (top: Option<usize>)
        requires
            self@.valid(),
            run.1 <= self@.w,
        ensures
            match top {
                Some(y) => top_of(self@, run_of(run)) == Some(y as int) && y < self@.h,
                None => top_of(self@, run_of(run)) is None,
            },
    {
        let mut y: usize = 0;
        while y < self.h
            invariant
                self@.valid(),
                run.1 <= self@.w,
                y <= self.h,
                top_of(self@, run_of(run)) == top_from(self@, run_of(run), y as int),
            decreases self.h - y,
        {
            let mut x: usize = run.0;
            while x < run.1
                invariant
                    self@.valid(),
                    y < self@.h,
                    run.0 <= x,
                    run.1 <= self@.w,
                    top_of(self@, run_of(run)) == top_from(self@, run_of(run), y as int),
                    forall|j: int| run.0 <= j < x ==> !#[trigger] self@.at(j, y as int),
                decreases run.1 - x,
            {
                if self.at(x, y) {
                    return Some(y);
                }
                x = x + 1;
            }
            y = y + 1;
        }
        None
    }

    /// Is this the lowercase indicator?
    ///
    /// `ab` is the only mode whose first character is x-height; in the others
    /// the first character reaches as high as the second.
    pub fn looks_lowercase(&self) -> (yes: bool)
        requires
            self@.valid(),
        ensures
            yes == looks_lowercase(self@),
    {
        let found = self.glyphs();
        proof {
            assert(runs_of(found@).len() == found@.len());
        }
        if found.len() < 2 {
            return false;
        }
        let first = self.top_of(found[0]);
        let second = self.top_of(found[1]);
        proof {
            assert(runs_of(found@)[0] == run_of(found@[0]));
            assert(runs_of(found@)[1] == run_of(found@[1]));
        }
        match (first, second) {
            (Some(a), Some(b)) => b <= a && a - b >= 2,
            _ => false,
        }
    }

    /// The picture of the crop, a row per line.
    pub fn render(&self) -> (out: String)
        requires
            self@.valid(),
        ensures
            out@ == rendered(self@),
    {
        let mut out = String::new();
        let mut y: usize = 0;
        let ghost row = self@.w + 1;
        let ghost all = rendered(self@);
        proof {
            assert(0int * row == 0);
            assert(self@.h * row >= 0) by (nonlinear_arith)
                requires
                    self@.h > 0,
                    row > 0,
            ;
            assert(out@ =~= all.subrange(0, 0));
        }
        while y < self.h
            invariant
                self@.valid(),
                y <= self.h,
                row == self@.w + 1,
                all == rendered(self@),
                all.len() == self@.h * row,
                0 <= y * row <= self@.h * row,
                out@ == all.subrange(0, y * row),
            decreases self.h - y,
        {
            let mut x: usize = 0;
            proof {
                assert(y * row + row <= self@.h * row) by (nonlinear_arith)
                    requires
                        y + 1 <= self@.h,
                        row > 0,
                ;
            }
            while x < self.w
                invariant
                    self@.valid(),
                    y < self.h,
                    x <= self.w,
                    row == self@.w + 1,
                    all == rendered(self@),
                    all.len() == self@.h * row,
                    0 <= y * row,
                    y * row + row <= self@.h * row,
                    out@ == all.subrange(0, y * row + x),
                decreases self.w - x,
            {
                if self.at(x, y) {
                    out.push('#');
                } else {
                    out.push('.');
                }
                proof {
                    lemma_row_index(x as int, y as int, row);
                    assert(out@ =~= all.subrange(0, y * row + x + 1));
                }
                x = x + 1;
            }
            out.push('\n');
            proof {
                lemma_row_index(self@.w, y as int, row);
                assert(out@ =~= all.subrange(0, y * row + row));
                assert((y + 1) * row == y * row + row) by (nonlinear_arith);
            }
            y = y + 1;
        }
        proof {
            assert(out@ =~= all);
        }
        out
    }

    /// How different this crop is from another, as a number of its pixels.
    pub fn distance(&self, other: &Crop) -> (d: usize)
        requires
            self@.valid(),
            other@.valid(),
        ensures
            d as int == distance(self@, other@),
            d <= other@.ink.len(),
    {
        let n: usize = other.ink.len();
        if self.w != other.w || self.h != other.h {
            return n;
        }
        let ghost diff = differing(self@, other@);
        let mut d: usize = 0;
        let mut i: usize = 0;
        while i < n
            invariant
                i <= n,
                d <= i,
                n == other.ink@.len(),
                n == self.ink@.len(),
                diff == differing(self@, other@),
                diff.len() == n,
                d == count(diff.subrange(0, i as int)),
            decreases n - i,
        {
            proof {
                assert(diff.subrange(0, i as int + 1) =~= diff.subrange(0, i as int).push(
                    diff[i as int],
                ));
                lemma_count_push(diff.subrange(0, i as int), diff[i as int]);
            }
            if (self.ink[i] == 1) != (other.ink[i] == 1) {
                d = d + 1;
            }
            i = i + 1;
        }
        proof {
            assert(diff.subrange(0, n as int) =~= diff);
        }
        d
    }
}

proof fn lemma_row_index(x: int, y: int, row: int)
    requires
        0 <= x < row,
        0 <= y,
    ensures
        (y * row + x) % row == x,
        (y * row + x) / row == y,
{
    vstd::arithmetic::div_mod::lemma_fundamental_div_mod_converse(y * row + x, row, y, x);
}

/// The luminance of a pixel is its red, green and blue, each brought to eight
/// bits, weighed as 30, 59 and 11 in a hundred.
pub proof fn law_luminance_weighs_the_colours(r: int, g: int, b: int)
    requires
        0 <= r < 32,
        0 <= g < 64,
        0 <= b < 32,
    ensures
        ({
            let px = r * 2048 + g * 32 + b;
            let l = luminance((px % 256) as u8, (px / 256) as u8);
            l * 100 <= 240 * r + 236 * g + 88 * b < l * 100 + 100
        }),
{
    let px = r * 2048 + g * 32 + b;
    assert(0 <= px < 65536);
    assert(px % 256 + 256 * (px / 256) == px);
    assert(px / 2048 == r);
    assert(px / 32 == r * 64 + g);
    assert(px / 32 % 64 == g);
    assert(px % 32 == b);
}

proof fn lemma_count_update(flags: Seq<bool>, i: int, b: bool)
    requires
        0 <= i < flags.len(),
        flags[i] != b,
    ensures
        count(flags.update(i, b)) == count(flags) + (if b {
            1int
        } else {
            -1int
        }),
    decreases flags.len(),
{
    let after = flags.update(i, b);
    let short = flags.drop_last();
    if i == flags.len() - 1 {
        assert(after.drop_last() =~= short);
    } else {
        lemma_count_update(short, i, b);
        assert(after.drop_last() =~= short.update(i, b));
        assert(after.last() == flags.last());
    }
}

/// Two masks of one size are as far apart as there are pixels in which they
/// differ: not at all where they are the same, and one pixel more or less apart
/// for each pixel that is flipped in one of them.
pub proof fn law_distance_counts_pixels(a: Mask, b: Mask, i: int)
    requires
        a.w == b.w && a.h == b.h,
        a.ink.len() == b.ink.len(),
        0 <= i < a.ink.len(),
    ensures
        distance(a, a) == 0,
        distance(a, b) == distance(b, a),
        distance(Mask { ink: a.ink.update(i, !a.ink[i]), ..a }, b) == distance(a, b) + (if a.ink[i]
            == b.ink[i] {
            1int
        } else {
            -1int
        }),
        0 <= distance(a, b) <= b.ink.len(),
{
    lemma_count_none(differing(a, a));
    assert(differing(a, b) =~= differing(b, a));
    let flipped = Mask { ink: a.ink.update(i, !a.ink[i]), ..a };
    let before = differing(a, b);
    assert(differing(flipped, b) =~= before.update(i, !before[i]));
    lemma_count_update(before, i, !before[i]);
    lemma_count_at_most(before);
}

proof fn lemma_count_at_most(flags: Seq<bool>)
    ensures
        count(flags) <= flags.len(),
    decreases flags.len(),
{
    if flags.len() > 0 {
        lemma_count_at_most(flags.drop_last());
    }
}

/// Masks of different sizes are as far apart as masks can be.
pub proof fn law_other_sizes_are_far(a: Mask, b: Mask)
    requires
        a.w != b.w || a.h != b.h,
    ensures
        distance(a, b) == b.ink.len(),
{
}

/// The two bytes of the pixel at (`x`, `y`) of a frame of width `w`.
pub open spec fn pixel(frame: Seq<u8>, w: int, x: int, y: int) -> (u8, u8) {
    (frame[(y * w + x) * 2], frame[(y * w + x) * 2 + 1])
}

/// A status bar in two colours that are far enough apart crops to its text: the
/// box reaches from 26 to 43 two-hundred-and-fortieths of the panel's width,
/// and as far down as 20 of them; the ink is exactly the pixels in the colour
/// that fewer of them have, be it the lighter or the darker one.
pub proof fn law_a_two_toned_bar_crops_to_its_text(
    frame: Seq<u8>,
    w: int,
    h: int,
    left: int,
    right: int,
    bottom: int,
    text: (u8, u8),
    bar: (u8, u8),
)
    requires
        0 <= w,
        left * 240 <= 26 * w < left * 240 + 240,
        right * 240 <= 43 * w < right * 240 + 240,
        bottom * 240 <= 20 * w < bottom * 240 + 240,
        bottom <= h,
        frame.len() >= w * h * 2,
        luminance(text.0, text.1) - luminance(bar.0, bar.1) >= 60 || luminance(bar.0, bar.1)
            - luminance(text.0, text.1) >= 60,
        forall|x: int, y: int|
            left <= x < right && 0 <= y < bottom ==> #[trigger] pixel(frame, w, x, y) == text
                || pixel(frame, w, x, y) == bar,
        0 < count(
            Seq::new(
                ((right - left) * bottom) as nat,
                |i: int| pixel(frame, w, left + i % (right - left), i / (right - left)) == text,
            ),
        ) * 2 < (right - left) * bottom,
    ensures
        cropped(frame, w, h) matches Some(m) && m.w == right - left && m.h == bottom && m.ink.len()
            == m.w * m.h && (forall|x: int, y: int|
            0 <= x < m.w && 0 <= y < m.h ==> (#[trigger] m.at(x, y) == (pixel(
                frame,
                w,
                left + x,
                y,
            ) == text))),
{
    let bw = right - left;
    let n = bw * bottom;
    let flags = Seq::new(n as nat, |i: int| pixel(frame, w, left + i % bw, i / bw) == text);
    let lums = box_lums(frame, w);
    let t = luminance(text.0, text.1);
    let b = luminance(bar.0, bar.1);
    assert(scaled(26, w) == left && scaled(43, w) == right && scaled(20, w) == bottom && scaled(
        0,
        w,
    ) == 0);
    assert(n > 0);
    assert(bw >= 0);
    assert(lums.len() == n);
    assert(flags.len() == n);
    assert forall|i: int| 0 <= i < n implies #[trigger] lums[i] == (if flags[i] {
        t
    } else {
        b
    }) by {
        lemma_box_index(i, bw, bottom);
        let x = left + i % bw;
        let y = i / bw;
        assert(pixel(frame, w, x, y) == text || pixel(frame, w, x, y) == bar);
        assert(lums[i] == lum_at(frame, w, x, y));
    }
    // Both colours are there.
    lemma_count_some(flags);
    let it = choose|i: int| 0 <= i < flags.len() && #[trigger] flags[i];
    lemma_count_not_all(flags);
    let ib = choose|i: int| 0 <= i < flags.len() && !#[trigger] flags[i];
    assert(lums[it] == t && lums[ib] == b);
    lums.min_ensures();
    lums.max_ensures();
    let hi = if t > b {
        t
    } else {
        b
    };
    let lo = if t > b {
        b
    } else {
        t
    };
    assert(lums.max() == hi) by {
        let k = lums.index_of(lums.max());
        assert(lums[k] == lums.max());
    }
    assert(lums.min() == lo) by {
        let k = lums.index_of(lums.min());
        assert(lums[k] == lums.min());
    }
    let lit = bright(lums);
    if t > b {
        assert(lit =~= flags);
    } else {
        assert forall|i: int| 0 <= i < flags.len() implies #[trigger] lit[i] == !flags[i] by {}
        lemma_count_flipped(flags, lit);
    }
    assert(ink_of(lums) =~= flags);
    let m = cropped(frame, w, h)->0;
    assert forall|x: int, y: int| 0 <= x < m.w && 0 <= y < m.h implies (#[trigger] m.at(x, y) == (
    pixel(frame, w, left + x, y) == text)) by {
        lemma_row_index(x, y, bw);
        lemma_pixel_in_frame(x, y, bw, bottom);
    }
}

proof fn lemma_count_some(flags: Seq<bool>)
    requires
        count(flags) > 0,
    ensures
        exists|i: int| 0 <= i < flags.len() && #[trigger] flags[i],
{
    if forall|i: int| 0 <= i < flags.len() ==> !#[trigger] flags[i] {
        lemma_count_none(flags);
    }
}

proof fn lemma_count_not_all(flags: Seq<bool>)
    requires
        count(flags) < flags.len(),
    ensures
        exists|i: int| 0 <= i < flags.len() && !#[trigger] flags[i],
    decreases flags.len(),
{
    if flags.last() {
        lemma_count_not_all(flags.drop_last());
        let i = choose|i: int| 0 <= i < flags.len() - 1 && !#[trigger] flags.drop_last()[i];
        assert(!flags[i]);
    } else {
        assert(!flags[flags.len() - 1]);
    }
}

/// Whether a run of set flags at or after `x` cannot be made longer there.
spec fn maximal(cols: Seq<bool>, x: int, run: (int, int)) -> bool {
    &&& x <= run.0 < run.1 <= cols.len()
    &&& forall|i: int| run.0 <= i < run.1 ==> #[trigger] cols[i]
    &&& run.0 > x ==> !cols[run.0 - 1]
    &&& run.1 < cols.len() ==> !cols[run.1]
}

spec fn holds(run: (int, int), i: int) -> bool {
    run.0 <= i < run.1
}

proof fn lemma_runs(cols: Seq<bool>, x: int)
    requires
        0 <= x <= cols.len(),
    ensures
        forall|k: int|
            0 <= k < runs(cols, x).len() ==> maximal(cols, x, #[trigger] runs(cols, x)[k]),
        forall|j: int, k: int|
            0 <= j < k < runs(cols, x).len() ==> (#[trigger] runs(cols, x)[j]).1 < (
            #[trigger] runs(cols, x)[k]).0,
        forall|i: int|
            x <= i < cols.len() && #[trigger] cols[i] ==> exists|k: int|
                0 <= k < runs(cols, x).len() && holds(#[trigger] runs(cols, x)[k], i),
    decreases cols.len() - x,
{
    let all = runs(cols, x);
    if x < cols.len() {
        if !cols[x] {
            lemma_runs(cols, x + 1);
            let rest = runs(cols, x + 1);
            assert(all == rest);
            assert forall|k: int| 0 <= k < all.len() implies maximal(
                cols,
                x,
                #[trigger] all[k],
            ) by {
                assert(maximal(cols, x + 1, rest[k]));
            }
        } else {
            lemma_run_end(cols, x);
            let end = run_end(cols, x);
            let rest = runs(cols, end);
            lemma_runs(cols, end);
            assert(all == seq![(x, end)] + rest);
            assert(all[0] == (x, end));
            assert forall|k: int| 1 <= k < all.len() implies maximal(cols, x, #[trigger] all[k])
                && all[k].0 > end by {
                assert(all[k] == rest[k - 1]);
                assert(maximal(cols, end, rest[k - 1]));
                assert(cols[all[k].0]);
            }
            assert forall|j: int, k: int| 0 <= j < k < all.len() implies (#[trigger] all[j]).1 < (
            #[trigger] all[k]).0 by {
                if j > 0 {
                    assert(all[j] == rest[j - 1] && all[k] == rest[k - 1]);
                }
            }
            assert forall|i: int| x <= i < cols.len() && #[trigger] cols[i] implies exists|k: int|
                0 <= k < all.len() && holds(#[trigger] all[k], i) by {
                if i < end {
                    assert(holds(all[0], i));
                } else {
                    let k = choose|k: int| 0 <= k < rest.len() && holds(#[trigger] rest[k], i);
                    assert(all[k + 1] == rest[k]);
                }
            }
        }
    }
}

proof fn lemma_glyph_edges(m: Mask, k: int)
    requires
        m.w > 0,
        0 <= k < glyphs(m).len(),
    ensures
        0 <= glyphs(m)[k].0 < glyphs(m)[k].1 <= m.w,
        inked(m, glyphs(m)[k].0),
        inked(m, glyphs(m)[k].1 - 1),
        glyphs(m)[k].1 < m.w ==> !solid(m, glyphs(m)[k].1),
{
    let cols = columns(m);
    lemma_runs(cols, 0);
    let (a, b) = glyphs(m)[k];
    assert(maximal(cols, 0, glyphs(m)[k]));
    assert(cols[a] && cols[b - 1]);
    assert(solid(m, a) && solid(m, b - 1));
    if a > 0 {
        assert(!cols[a - 1]);
        assert(!solid(m, a - 1));
    }
    if b < m.w {
        assert(!cols[b]);
        assert(!solid(m, b));
    }
}

/// Every column with ink is in a glyph.
pub proof fn law_all_ink_is_in_a_glyph(m: Mask, x: int)
    requires
        0 <= x < m.w,
        inked(m, x),
    ensures
        exists|k: int|
            0 <= k < glyphs(m).len() && (#[trigger] glyphs(m)[k]).0 <= x < glyphs(m)[k].1,
{
    let gs = glyphs(m);
    lemma_runs(columns(m), 0);
    assert(columns(m)[x]);
    let k = choose|k: int| 0 <= k < gs.len() && holds(#[trigger] gs[k], x);
    assert(gs[k].0 <= x < gs[k].1);
}

/// A glyph begins and ends with a column that has ink, and holds no two blank
/// columns side by side.
pub proof fn law_a_glyph_has_no_gap(m: Mask, k: int, x: int)
    requires
        m.w > 0,
        0 <= k < glyphs(m).len(),
    ensures
        0 <= glyphs(m)[k].0 < glyphs(m)[k].1 <= m.w,
        inked(m, glyphs(m)[k].0),
        inked(m, glyphs(m)[k].1 - 1),
        glyphs(m)[k].0 <= x && x + 1 < glyphs(m)[k].1 ==> inked(m, x) || inked(m, x + 1),
{
    let gs = glyphs(m);
    lemma_runs(columns(m), 0);
    lemma_glyph_edges(m, k);
    if gs[k].0 <= x && x + 1 < gs[k].1 {
        assert(maximal(columns(m), 0, gs[k]));
        assert(columns(m)[x]);
        assert(solid(m, x));
    }
}

/// The glyphs stand from left to right, with at least two blank columns between
/// one and the next.
pub proof fn law_glyphs_are_parted_by_gaps(m: Mask, j: int, k: int)
    requires
        m.w > 0,
        0 <= j < k < glyphs(m).len(),
    ensures
        glyphs(m)[j].1 + 2 <= glyphs(m)[k].0,
{
    lemma_runs(columns(m), 0);
    lemma_glyph_edges(m, j);
    lemma_glyph_edges(m, k);
    let b = glyphs(m)[j].1;
    let c = glyphs(m)[k].0;
    assert(b < c);
    if c == b + 1 {
        assert(inked(m, b - 1) && inked(m, b + 1));
        assert(solid(m, b));
    }
}

/// Whether row `y` has ink in the columns of a run.
pub open spec fn row_inked(m: Mask, run: (int, int), y: int) -> bool {
    exists|x: int| run.0 <= x < run.1 && #[trigger] m.at(x, y)
}

proof fn lemma_top_from(m: Mask, run: (int, int), y: int)
    ensures
        match top_from(m, run, y) {
            Some(t) => y <= t < m.h && row_inked(m, run, t) && forall|z: int|
                y <= z < t ==> !#[trigger] row_inked(m, run, z),
            None => forall|z: int| y <= z < m.h ==> !#[trigger] row_inked(m, run, z),
        },
    decreases m.h - y,
{
    if y < m.h && !row_inked(m, run, y) {
        lemma_top_from(m, run, y + 1);
        assert(top_from(m, run, y) == top_from(m, run, y + 1));
    }
}

/// The top of a glyph is the first row with ink in its columns.
pub proof fn law_the_top_is_the_first_row_with_ink(m: Mask, run: (int, int))
    ensures
        match top_of(m, run) {
            Some(t) => 0 <= t < m.h && row_inked(m, run, t) && forall|z: int|
                0 <= z < t ==> !#[trigger] row_inked(m, run, z),
            None => forall|z: int| 0 <= z < m.h ==> !#[trigger] row_inked(m, run, z),
        },
{
    lemma_top_from(m, run, 0);
}

/// A mask looks lowercase exactly where it has two glyphs and its first one
/// starts at least two rows below its second: some row `y` has ink of the
/// second, and neither that row, nor any above it, nor the one below it has ink
/// of the first.
pub proof fn law_lowercase_starts_lower(m: Mask)
    requires
        m.valid(),
    ensures
        looks_lowercase(m) == (glyphs(m).len() >= 2 && exists|y: int|
            0 <= y < m.h && #[trigger] row_inked(m, glyphs(m)[1], y) && forall|z: int|
                0 <= z < y + 2 && z < m.h ==> !#[trigger] row_inked(m, glyphs(m)[0], z)),
{
    let gs = glyphs(m);
    if gs.len() >= 2 {
        lemma_glyph_edges(m, 0);
        lemma_glyph_edges(m, 1);
        let (a, b) = gs[0];
        let (c, d) = gs[1];
        let ya = choose|y: int| 0 <= y < m.h && #[trigger] m.at(a, y);
        let yc = choose|y: int| 0 <= y < m.h && #[trigger] m.at(c, y);
        assert(row_inked(m, gs[0], ya));
        assert(row_inked(m, gs[1], yc));
        law_the_top_is_the_first_row_with_ink(m, gs[0]);
        law_the_top_is_the_first_row_with_ink(m, gs[1]);
        let t0 = top_of(m, gs[0])->0;
        let t1 = top_of(m, gs[1])->0;
        assert(row_inked(m, gs[0], t0) && row_inked(m, gs[1], t1));
    }
}

/// The picture of a mask has a line for each row, with `#` for ink and `.` for
/// none.
pub proof fn law_a_picture_shows_the_mask(m: Mask, x: int, y: int)
    requires
        m.valid(),
        0 <= x < m.w,
        0 <= y < m.h,
    ensures
        rendered(m).len() == m.h * (m.w + 1),
        0 <= y * (m.w + 1),
        y * (m.w + 1) + m.w < rendered(m).len(),
        rendered(m)[y * (m.w + 1) + x] == (if m.at(x, y) {
            '#'
        } else {
            '.'
        }),
        rendered(m)[y * (m.w + 1) + m.w] == '\n',
{
    let row = m.w + 1;
    lemma_row_index(x, y, row);
    lemma_row_index(m.w, y, row);
    lemma_pixel_in_frame(m.w, y, row, m.h);
    assert(row * m.h == m.h * row) by (nonlinear_arith);
}

/// A box that is too flat to hold text shows none, and neither does one that the
/// frame does not hold whole.
pub proof fn law_what_shows_no_text(
    frame: Seq<u8>,
    w: int,
    h: int,
    left: int,
    right: int,
    bottom: int,
)
    requires
        0 <= w,
        left * 240 <= 26 * w < left * 240 + 240,
        right * 240 <= 43 * w < right * 240 + 240,
        bottom * 240 <= 20 * w < bottom * 240 + 240,
    ensures
        bottom > h ==> cropped(frame, w, h) is None,
        frame.len() < w * h * 2 ==> cropped(frame, w, h) is None,
        (forall|x: int, y: int, u: int, v: int|
            left <= x < right && 0 <= y < bottom && left <= u < right && 0 <= v < bottom ==> (
            #[trigger] lum_at(frame, w, x, y)) - (#[trigger] lum_at(frame, w, u, v)) < 60)
            ==> cropped(frame, w, h) is None,
{
    let lums = box_lums(frame, w);
    let bw = right - left;
    assert(scaled(26, w) == left && scaled(43, w) == right && scaled(20, w) == bottom && scaled(
        0,
        w,
    ) == 0);
    if lums.len() > 0 && bottom <= h && frame.len() >= w * h * 2 {
        lums.min_ensures();
        lums.max_ensures();
        assert(lums.len() == bw * bottom);
        let i = lums.index_of(lums.max());
        let j = lums.index_of(lums.min());
        assert(lums[i] == lums.max() && lums[j] == lums.min());
        lemma_box_index(i, bw, bottom);
        lemma_box_index(j, bw, bottom);
        assert(lums[i] == lum_at(frame, w, left + i % bw, i / bw));
        assert(lums[j] == lum_at(frame, w, left + j % bw, j / bw));
    }
}

/// The pixels of a box that are lighter than the middle between its lightest and
/// its darkest one.
pub open spec fn lighter(frame: Seq<u8>, w: int, left: int, right: int, bottom: int, sum: int) -> Seq<
    bool,
> {
    Seq::new(
        ((right - left) * bottom) as nat,
        |i: int| 2 * lum_at(frame, w, left + i % (right - left), i / (right - left)) > sum,
    )
}

/// What counts as ink, in any bar whose lightest and darkest pixels are far
/// enough apart: the pixels on the far side of the middle between those two,
/// where the far side is the lighter one unless more than half of the pixels are
/// on it.
pub proof fn law_ink_is_what_stands_out(
    frame: Seq<u8>,
    w: int,
    h: int,
    left: int,
    right: int,
    bottom: int,
    lightest: (int, int),
    darkest: (int, int),
)
    requires
        0 <= w,
        left * 240 <= 26 * w < left * 240 + 240,
        right * 240 <= 43 * w < right * 240 + 240,
        bottom * 240 <= 20 * w < bottom * 240 + 240,
        bottom <= h,
        frame.len() >= w * h * 2,
        left <= lightest.0 < right && 0 <= lightest.1 < bottom,
        left <= darkest.0 < right && 0 <= darkest.1 < bottom,
        forall|x: int, y: int|
            left <= x < right && 0 <= y < bottom ==> lum_at(frame, w, darkest.0, darkest.1)
                <= #[trigger] lum_at(frame, w, x, y) <= lum_at(frame, w, lightest.0, lightest.1),
        lum_at(frame, w, lightest.0, lightest.1) - lum_at(frame, w, darkest.0, darkest.1) >= 60,
    ensures
        ({
            let sum = lum_at(frame, w, lightest.0, lightest.1) + lum_at(
                frame,
                w,
                darkest.0,
                darkest.1,
            );
            let many = 2 * count(lighter(frame, w, left, right, bottom, sum)) > (right - left)
                * bottom;
            cropped(frame, w, h) matches Some(m) && m.w == right - left && m.h == bottom && forall|
                x: int,
                y: int,
            |
                0 <= x < m.w && 0 <= y < m.h ==> (#[trigger] m.at(x, y) == ((2 * lum_at(
                    frame,
                    w,
                    left + x,
                    y,
                ) > sum) != many))
        }),
{
    let bw = right - left;
    let n = bw * bottom;
    let lums = box_lums(frame, w);
    assert(scaled(26, w) == left && scaled(43, w) == right && scaled(20, w) == bottom && scaled(
        0,
        w,
    ) == 0);
    let hi = lum_at(frame, w, lightest.0, lightest.1);
    let lo = lum_at(frame, w, darkest.0, darkest.1);
    lemma_pixel_in_frame(lightest.0 - left, lightest.1, bw, bottom);
    lemma_pixel_in_frame(darkest.0 - left, darkest.1, bw, bottom);
    lemma_row_index(lightest.0 - left, lightest.1, bw);
    lemma_row_index(darkest.0 - left, darkest.1, bw);
    assert(lums.len() == n);
    let ih = lightest.1 * bw + (lightest.0 - left);
    let il = darkest.1 * bw + (darkest.0 - left);
    assert(lums[ih] == hi && lums[il] == lo);
    assert forall|i: int| 0 <= i < n implies lo <= #[trigger] lums[i] <= hi by {
        lemma_box_index(i, bw, bottom);
        assert(lums[i] == lum_at(frame, w, left + i % bw, i / bw));
    }
    lums.min_ensures();
    lums.max_ensures();
    assert(lums.max() == hi) by {
        let k = lums.index_of(lums.max());
        assert(lums[k] == lums.max());
    }
    assert(lums.min() == lo) by {
        let k = lums.index_of(lums.min());
        assert(lums[k] == lums.min());
    }
    let lit = lighter(frame, w, left, right, bottom, hi + lo);
    assert forall|i: int| 0 <= i < n implies #[trigger] bright(lums)[i] == lit[i] by {
        assert(lums[i] == lum_at(frame, w, left + i % bw, i / bw));
    }
    assert(bright(lums) =~= lit);
    let m = cropped(frame, w, h)->0;
    assert forall|x: int, y: int| 0 <= x < m.w && 0 <= y < m.h implies (#[trigger] m.at(x, y) == ((2
        * lum_at(frame, w, left + x, y) > hi + lo) != (2 * count(lit) > n))) by {
        lemma_row_index(x, y, bw);
        lemma_pixel_in_frame(x, y, bw, bottom);
        assert(lums[y * bw + x] == lum_at(frame, w, left + x, y));
    }
}

} // verus!
