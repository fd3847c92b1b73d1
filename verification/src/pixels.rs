//! Pixel work of the validation and comparison commands: an RGB canvas,
//! rectangle fills and strokes, colour tests, and the per-element colour
//! fingerprints.

use vstd::prelude::*;

use crate::render::Rgb;

verus! {

/// An RGB image as rows of pixels, top row first.
pub struct Canvas {
    pub width: u32,
    pub height: u32,
    pub rows: Vec<Vec<Rgb>>,
}

impl Canvas {
    /// Every row holds `width` pixels, and there are `height` rows.
    pub open spec fn wf(&self) -> bool {
        &&& self.rows@.len() == self.height
        &&& forall|y: int| 0 <= y < self.height ==> (#[trigger] self.rows@[y])@.len() == self.width
    }

    /// The pixel at column `x` of row `y`.
    pub open spec fn px(&self, x: int, y: int) -> Rgb {
        self.rows@[y]@[x]
    }

    /// A canvas of one colour.
    pub fn filled(width: u32, height: u32, color: Rgb) -> (r: Canvas)
        ensures
            r.wf(),
            r.width == width,
            r.height == height,
            forall|x: int, y: int| 0 <= x < width && 0 <= y < height ==> r.px(x, y) == color,
    {
        let mut rows: Vec<Vec<Rgb>> = Vec::new();
        let mut y: u32 = 0;
        while y < height
            invariant
                y <= height,
                rows@.len() == y,
                forall|j: int| 0 <= j < y ==> (#[trigger] rows@[j])@.len() == width,
                forall|j: int, x: int| 0 <= j < y && 0 <= x < width ==> #[trigger] rows@[j]@[x] == color,
            decreases height - y,
        {
            let mut row: Vec<Rgb> = Vec::new();
            let mut x: u32 = 0;
            while x < width
                invariant
                    x <= width,
                    row@.len() == x,
                    forall|i: int| 0 <= i < x ==> #[trigger] row@[i] == color,
                decreases width - x,
            {
                row.push(color);
                x = x + 1;
            }
            rows.push(row);
            y = y + 1;
        }
        Canvas { width, height, rows }
    }

    /// The pixel at (`x`, `y`).
    pub fn get(&self, x: u32, y: u32) -> (r: Rgb)
        requires
            self.wf(),
            x < self.width,
            y < self.height,
        ensures
            r == self.px(x as int, y as int),
    {
        self.rows[y as usize][x as usize]
    }

    /// Sets the pixel at (`x`, `y`).
    pub fn put(&mut self, x: u32, y: u32, c: Rgb)
        requires
            old(self).wf(),
            x < old(self).width,
            y < old(self).height,
        ensures
            final(self).wf(),
            final(self).width == old(self).width,
            final(self).height == old(self).height,
            forall|i: int, j: int|
                0 <= i < final(self).width && 0 <= j < final(self).height ==> final(self).px(i, j) == if i == x
                    && j == y {
                    c
                } else {
                    old(self).px(i, j)
                },
    {
        let ghost before = self.rows@;
        let mut row: Vec<Rgb> = Vec::new();
        std::mem::swap(&mut row, &mut self.rows[y as usize]);
        row.set(x as usize, c);
        self.rows.set(y as usize, row);
        assert forall|i: int, j: int|
            0 <= i < self.width && 0 <= j < self.height implies self.px(i, j) == if i == x && j == y {
            c
        } else {
            old(self).px(i, j)
        } by {
            if j != y {
                assert(self.rows@[j] == before[j]);
            }
        }
    }
}

// ---------------------------------------------------------------------------
// Rectangles
// ---------------------------------------------------------------------------

/// Whether pixel (`px`, `py`) lies in the rectangle at (`x`, `y`) of size
/// `w`×`h`.
pub open spec fn in_rect(px: int, py: int, x: int, y: int, w: int, h: int) -> bool {
    x <= px < x + w && y <= py < y + h
}

fn clip(lo: i64, len: u64, limit: u32) -> (r: (u32, u32))
    requires
        -0x8000_0000_0000 <= lo <= 0x8000_0000_0000,
        len <= 0x1_0000_0000_0000,
    ensures
        r.0 <= r.1 <= limit,
        r.0 == min(if lo < 0 { 0 } else { lo as int }, limit as int),
        r.1 == (if lo + len <= r.0 { r.0 as int } else { min(lo + len, limit as int) }),
{
    let start: i64 = if lo < 0 {
        0
    } else {
        lo
    };
    let end: i64 = lo + len as i64;
    let s: u32 = if start >= limit as i64 {
        limit
    } else {
        start as u32
    };
    let e: u32 = if end <= s as i64 {
        s
    } else if end >= limit as i64 {
        limit
    } else {
        end as u32
    };
    (s, e)
}

fn fill_area(c: &mut Canvas, x: i64, y: i64, w: u64, h: u64, color: Rgb)
    requires
        old(c).wf(),
        -0x8000_0000_0000 <= x <= 0x8000_0000_0000,
        -0x8000_0000_0000 <= y <= 0x8000_0000_0000,
        w <= 0x1_0000_0000_0000,
        h <= 0x1_0000_0000_0000,
    ensures
        final(c).wf(),
        final(c).width == old(c).width,
        final(c).height == old(c).height,
        forall|i: int, j: int|
            0 <= i < final(c).width && 0 <= j < final(c).height ==> final(c).px(i, j) == if in_rect(
                i,
                j,
                x as int,
                y as int,
                w as int,
                h as int,
            ) {
                color
            } else {
                old(c).px(i, j)
            },
{
    let (x0, x1) = clip(x, w, c.width);
    let (y0, y1) = clip(y, h, c.height);
    let ghost start = *c;
    let mut py = y0;
    while py < y1
        invariant
            y0 <= py <= y1 <= c.height,
            x0 <= x1 <= c.width,
            c.wf(),
            c.width == start.width,
            c.height == start.height,
            x0 == min(if x < 0 { 0 } else { x as int }, c.width as int),
            x1 == (if x + w <= x0 { x0 as int } else { min(x + w, c.width as int) }),
            y0 == min(if y < 0 { 0 } else { y as int }, c.height as int),
            y1 == (if y + h <= y0 { y0 as int } else { min(y + h, c.height as int) }),
            forall|i: int, j: int|
                0 <= i < c.width && 0 <= j < c.height ==> c.px(i, j) == if x0 <= i < x1 && y0 <= j < py {
                    color
                } else {
                    start.px(i, j)
                },
        decreases y1 - py,
    {
        let mut px = x0;
        while px < x1
            invariant
                y0 <= py < y1 <= c.height,
                x0 <= px <= x1 <= c.width,
                c.wf(),
                c.width == start.width,
                c.height == start.height,
                forall|i: int, j: int|
                    0 <= i < c.width && 0 <= j < c.height ==> c.px(i, j) == if (x0 <= i < x1 && y0 <= j < py)
                        || (x0 <= i < px && j == py) {
                        color
                    } else {
                        start.px(i, j)
                    },
            decreases x1 - px,
        {
            c.put(px, py, color);
            px = px + 1;
        }
        py = py + 1;
    }
    assert forall|i: int, j: int| 0 <= i < c.width && 0 <= j < c.height implies ((x0 <= i < x1 && y0 <= j < y1)
        <==> in_rect(i, j, x as int, y as int, w as int, h as int)) by {}
}

/// Fills the part of a rectangle that lies on the canvas.
pub fn draw_fill_rect(c: &mut Canvas, x: i32, y: i32, w: u32, h: u32, color: Rgb)
    requires
        old(c).wf(),
    ensures
        final(c).wf(),
        final(c).width == old(c).width,
        final(c).height == old(c).height,
        forall|i: int, j: int|
            0 <= i < final(c).width && 0 <= j < final(c).height ==> final(c).px(i, j) == if in_rect(
                i,
                j,
                x as int,
                y as int,
                w as int,
                h as int,
            ) {
                color
            } else {
                old(c).px(i, j)
            },
{
    fill_area(c, x as i64, y as i64, w as u64, h as u64, color);
}

pub open spec fn sat_sub(a: int, b: int) -> int {
    if a > b {
        a - b
    } else {
        0
    }
}

pub open spec fn min(a: int, b: int) -> int {
    if a < b {
        a
    } else {
        b
    }
}

/// Whether offset (`dx`, `dy`) of a `w`×`h` rectangle lies on its stroke of
/// width `sw`: the top and bottom bands, and the left and right bands
/// between them.
pub open spec fn in_stroke(dx: int, dy: int, w: int, h: int, sw: int) -> bool {
    &&& 0 <= dx < w
    &&& 0 <= dy < h
    &&& {
        ||| dy < min(sw, h)
        ||| dy >= sat_sub(h, sw)
        ||| (sw <= dy < sat_sub(h, sw) && (dx < min(sw, w) || dx >= sat_sub(w, sw)))
    }
}

/// Strokes the outline of a rectangle, `sw` pixels wide, inside it.
pub fn draw_stroke_rect(c: &mut Canvas, x: i32, y: i32, w: u32, h: u32, sw: u32, color: Rgb)
    requires
        old(c).wf(),
    ensures
        final(c).wf(),
        final(c).width == old(c).width,
        final(c).height == old(c).height,
        forall|i: int, j: int|
            0 <= i < final(c).width && 0 <= j < final(c).height ==> final(c).px(i, j) == if in_stroke(
                i - x,
                j - y,
                w as int,
                h as int,
                sw as int,
            ) {
                color
            } else {
                old(c).px(i, j)
            },
{
    let ghost start = *c;
    let xi = x as i64;
    let yi = y as i64;
    let top_h: u64 = if sw < h {
        sw as u64
    } else {
        h as u64
    };
    let inner_end: u64 = if h > sw {
        (h - sw) as u64
    } else {
        0
    };
    let left_w: u64 = if sw < w {
        sw as u64
    } else {
        w as u64
    };
    let right_start: u64 = if w > sw {
        (w - sw) as u64
    } else {
        0
    };
    fill_area(c, xi, yi, w as u64, top_h, color);
    let ghost s1 = *c;
    fill_area(c, xi, yi + inner_end as i64, w as u64, h as u64 - inner_end, color);
    let ghost s2 = *c;
    let mid_h: u64 = if inner_end > sw as u64 {
        inner_end - sw as u64
    } else {
        0
    };
    fill_area(c, xi, yi + sw as i64, left_w, mid_h, color);
    let ghost s3 = *c;
    fill_area(c, xi + right_start as i64, yi + sw as i64, w as u64 - right_start, mid_h, color);
    assert forall|i: int, j: int|
        0 <= i < c.width && 0 <= j < c.height implies c.px(i, j) == if in_stroke(
            i - x,
            j - y,
            w as int,
            h as int,
            sw as int,
        ) {
            color
        } else {
            start.px(i, j)
        } by {
        assert(s3.px(i, j) == (if in_rect(i, j, xi as int, yi + sw, left_w as int, mid_h as int) { color } else { s2.px(i, j) }));
        assert(s2.px(i, j) == (if in_rect(i, j, xi as int, yi + inner_end, w as int, h - inner_end) { color } else { s1.px(i, j) }));
        assert(s1.px(i, j) == (if in_rect(i, j, xi as int, yi as int, w as int, top_h as int) { color } else { start.px(i, j) }));
    }
}

// ---------------------------------------------------------------------------
// Colours
// ---------------------------------------------------------------------------

pub open spec fn chan_diff(a: u8, b: u8) -> int {
    if a >= b {
        a - b
    } else {
        b - a
    }
}

/// Two colours within `t` of each other on every channel.
pub open spec fn close(a: Rgb, b: Rgb, t: u8) -> bool {
    chan_diff(a.0, b.0) <= t && chan_diff(a.1, b.1) <= t && chan_diff(a.2, b.2) <= t
}

pub(crate) fn diff_u8(a: u8, b: u8) -> (r: u8)
    ensures
        r == chan_diff(a, b),
{
    if a >= b {
        a - b
    } else {
        b - a
    }
}

/// Whether two colours are within `threshold` on every channel.
pub fn color_close(a: &Rgb, b: &Rgb, threshold: u8) -> (r: bool)
    ensures
        r == close(*a, *b, threshold),
{
    diff_u8(a.0, b.0) <= threshold && diff_u8(a.1, b.1) <= threshold && diff_u8(a.2, b.2) <= threshold
}

/// The product of two colours, channel by channel, over 255.
pub open spec fn multiplied(a: Rgb, b: Rgb) -> Rgb {
    (((a.0 * b.0) / 255) as u8, ((a.1 * b.1) / 255) as u8, ((a.2 * b.2) / 255) as u8)
}

fn mul_channel(a: u8, b: u8) -> (r: u8)
    ensures
        r == ((a * b) / 255) as u8,
{
    assert(a as int * b as int <= 255 * 255) by (nonlinear_arith)
        requires
            a <= 255,
            b <= 255,
    ;
    assert((a as int * b as int) / 255 <= 255) by (nonlinear_arith)
        requires
            a as int * b as int <= 255 * 255,
            0 <= a as int * b as int,
    ;
    ((a as u16 * b as u16) / 255) as u8
}

/// Multiplies two colours.
pub fn multiply_colors(a: Rgb, b: Rgb) -> (r: Rgb)
    ensures
        r == multiplied(a, b),
{
    (mul_channel(a.0, b.0), mul_channel(a.1, b.1), mul_channel(a.2, b.2))
}

/// The djb2 hash of bytes, modulo 2³².
pub open spec fn djb2(bytes: Seq<u8>) -> int
    decreases bytes.len(),
{
    if bytes.len() == 0 {
        5381
    } else {
        (djb2(bytes.drop_last()) * 33 + bytes.last()) % 0x1_0000_0000
    }
}

/// The hue (in degrees) that stands for an element: the djb2 hash of its
/// ID's UTF-8 bytes, modulo 360.
pub open spec fn hue_of(id: Seq<char>) -> int {
    djb2(vstd::utf8::encode_utf8(id)) % 360
}

/// The hue (in degrees) that stands for an element.
pub fn id_to_hue(id: &str) -> (r: u32)
    ensures
        r == hue_of(id@),
{
    let bytes = id.as_bytes();
    let mut hash: u32 = 5381;
    let mut i: usize = 0;
    assert(bytes@.subrange(0, 0) =~= Seq::<u8>::empty());
    while i < bytes.len()
        invariant
            i <= bytes@.len(),
            bytes@ == vstd::utf8::encode_utf8(id@),
            hash == djb2(bytes@.subrange(0, i as int)),
        decreases bytes@.len() - i,
    {
        let b = bytes[i];
        proof {
            let p = bytes@.subrange(0, i + 1);
            assert(p.drop_last() =~= bytes@.subrange(0, i as int));
            assert(p.last() == b);
        }
        let next: u64 = (hash as u64 * 33 + b as u64) % 0x1_0000_0000;
        hash = next as u32;
        i = i + 1;
    }
    assert(bytes@.subrange(0, i as int) =~= bytes@);
    hash % 360
}

// ---------------------------------------------------------------------------
// Comparing two screenshots
// ---------------------------------------------------------------------------

/// Two pixels differ when a channel differs by more than 30.
pub open spec fn differs(a: Rgb, b: Rgb) -> bool {
    chan_diff(a.0, b.0) > 30 || chan_diff(a.1, b.1) > 30 || chan_diff(a.2, b.2) > 30
}

/// How many of the first `n` pixels of row `y` differ.
pub open spec fn row_diffs(a: Canvas, b: Canvas, y: int, n: int) -> nat
    decreases n,
{
    if n <= 0 {
        0
    } else {
        row_diffs(a, b, y, n - 1) + if differs(a.px(n - 1, y), b.px(n - 1, y)) {
            1nat
        } else {
            0nat
        }
    }
}

/// How many pixels of the first `m` rows differ.
pub open spec fn diff_pixels(a: Canvas, b: Canvas, m: int) -> nat
    decreases m,
{
    if m <= 0 {
        0
    } else {
        diff_pixels(a, b, m - 1) + row_diffs(a, b, m - 1, a.width as int)
    }
}

proof fn lemma_row_diffs_bound(a: Canvas, b: Canvas, y: int, n: int)
    requires
        0 <= n,
    ensures
        row_diffs(a, b, y, n) <= n,
    decreases n,
{
    if n > 0 {
        lemma_row_diffs_bound(a, b, y, n - 1);
    }
}

fn pixel_differs(a: Rgb, b: Rgb) -> (r: bool)
    ensures
        r == differs(a, b),
{
    diff_u8(a.0, b.0) > 30 || diff_u8(a.1, b.1) > 30 || diff_u8(a.2, b.2) > 30
}

/// How many pixels of two same-sized screenshots differ.
pub fn compute_pixel_diff(src: &Canvas, tgt: &Canvas) -> (r: u64)
    requires
        src.wf(),
        tgt.wf(),
        src.width == tgt.width,
        src.height == tgt.height,
    ensures
        r == diff_pixels(*src, *tgt, src.height as int),
{
    let mut count: u64 = 0;
    let mut y: u32 = 0;
    while y < src.height
        invariant
            y <= src.height,
            src.wf(),
            tgt.wf(),
            src.width == tgt.width,
            src.height == tgt.height,
            count == diff_pixels(*src, *tgt, y as int),
            count <= y as int * src.width as int,
        decreases src.height - y,
    {
        let ghost base = count;
        let mut x: u32 = 0;
        while x < src.width
            invariant
                x <= src.width,
                y < src.height,
                src.wf(),
                tgt.wf(),
                src.width == tgt.width,
                src.height == tgt.height,
                base == diff_pixels(*src, *tgt, y as int),
                base <= y as int * src.width as int,
                count == base + row_diffs(*src, *tgt, y as int, x as int),
                row_diffs(*src, *tgt, y as int, x as int) <= x,
            decreases src.width - x,
        {
            proof {
                lemma_row_diffs_bound(*src, *tgt, y as int, x as int);
                assert(y as int * src.width as int + x + 1 < 0x1_0000_0000 * 0x1_0000_0000) by (nonlinear_arith)
                    requires
                        y < 0x1_0000_0000,
                        x < src.width,
                        src.width < 0x1_0000_0000,
                ;
            }
            if pixel_differs(src.get(x, y), tgt.get(x, y)) {
                count = count + 1;
            }
            x = x + 1;
        }
        proof {
            assert(y as int * src.width as int + src.width as int == (y + 1) as int * src.width as int) by (nonlinear_arith);
        }
        y = y + 1;
    }
    count
}

pub const SEPARATOR: Rgb = (200, 200, 200);

pub const HIGHLIGHT: Rgb = (255, 0, 80);

/// A matching pixel, desaturated: the mean of its channels on each.
pub open spec fn grey_of(p: Rgb) -> Rgb {
    let g = ((p.0 + p.1 + p.2) / 3) as u8;
    (g, g, g)
}

/// The side-by-side picture of a comparison (`w` the width of each
/// screenshot): source, a two-pixel separator, target, a separator, then
/// the differing pixels highlighted over the source in grey.
pub open spec fn diff_picture_px(a: Canvas, b: Canvas, x: int, y: int) -> Rgb {
    let w = a.width as int;
    if x < w {
        a.px(x, y)
    } else if x < w + 2 {
        SEPARATOR
    } else if x < 2 * w + 2 {
        b.px(x - w - 2, y)
    } else if x < 2 * w + 4 {
        SEPARATOR
    } else if differs(a.px(x - 2 * w - 4, y), b.px(x - 2 * w - 4, y)) {
        HIGHLIGHT
    } else {
        grey_of(a.px(x - 2 * w - 4, y))
    }
}

fn grey(p: Rgb) -> (r: Rgb)
    ensures
        r == grey_of(p),
{
    let g = ((p.0 as u16 + p.1 as u16 + p.2 as u16) / 3) as u8;
    (g, g, g)
}

/// The side-by-side picture of a comparison of two same-sized screenshots.
pub fn generate_diff_image(src: &Canvas, tgt: &Canvas) -> (r: Canvas)
    requires
        src.wf(),
        tgt.wf(),
        src.width == tgt.width,
        src.height == tgt.height,
        3 * src.width + 4 <= u32::MAX,
    ensures
        r.wf(),
        r.width == 3 * src.width + 4,
        r.height == src.height,
        forall|x: int, y: int| 0 <= x < r.width && 0 <= y < r.height ==> r.px(x, y) == diff_picture_px(*src, *tgt, x, y),
{
    let w = src.width;
    let out_w = 3 * w + 4;
    let mut rows: Vec<Vec<Rgb>> = Vec::new();
    let mut y: u32 = 0;
    while y < src.height
        invariant
            y <= src.height,
            src.wf(),
            tgt.wf(),
            w == src.width,
            src.width == tgt.width,
            src.height == tgt.height,
            out_w == 3 * w + 4,
            rows@.len() == y,
            forall|j: int| 0 <= j < y ==> (#[trigger] rows@[j])@.len() == out_w,
            forall|j: int, x: int| 0 <= j < y && 0 <= x < out_w ==> #[trigger] rows@[j]@[x] == diff_picture_px(*src, *tgt, x, j),
        decreases src.height - y,
    {
        let mut row: Vec<Rgb> = Vec::new();
        let mut x: u32 = 0;
        while x < out_w
            invariant
                x <= out_w,
                y < src.height,
                src.wf(),
                tgt.wf(),
                w == src.width,
                src.width == tgt.width,
                src.height == tgt.height,
                out_w == 3 * w + 4,
                row@.len() == x,
                forall|i: int| 0 <= i < x ==> #[trigger] row@[i] == diff_picture_px(*src, *tgt, i, y as int),
            decreases out_w - x,
        {
            let p = if x < w {
                src.get(x, y)
            } else if x < w + 2 {
                SEPARATOR
            } else if x < 2 * w + 2 {
                tgt.get(x - w - 2, y)
            } else if x < 2 * w + 4 {
                SEPARATOR
            } else {
                let a = src.get(x - 2 * w - 4, y);
                let b = tgt.get(x - 2 * w - 4, y);
                if pixel_differs(a, b) {
                    HIGHLIGHT
                } else {
                    grey(a)
                }
            };
            row.push(p);
            x = x + 1;
        }
        rows.push(row);
        y = y + 1;
    }
    Canvas { width: out_w, height: src.height, rows }
}

// ---------------------------------------------------------------------------
// Bounds validation: agent overlay against schema render
// ---------------------------------------------------------------------------

/// Arguments of `vdb validate`.
pub struct ValidateArgs {
    /// Device screenshot with the agent's overlay (red bounds).
    pub device_overlay: String,
    /// Schema render (blue bounds).
    pub schema_render: String,
    /// Where the composite picture goes.
    pub output: String,
    /// How far the marking channel must stand above the others.
    pub threshold: u8,
    /// How far, in pixels, a matching mark may lie.
    pub tolerance: u32,
}

pub open spec fn sat_add(a: u8, t: u8) -> int {
    min(a + t, 255)
}

/// A pixel of the agent's red overlay: red above both other channels by
/// more than `t`.
pub open spec fn agent_px(p: Rgb, t: u8) -> bool {
    p.0 > sat_add(p.1, t) && p.0 > sat_add(p.2, t)
}

/// A pixel of the schema render's blue bounds: blue above both other
/// channels by more than `t`.
pub open spec fn yaml_px(p: Rgb, t: u8) -> bool {
    p.2 > sat_add(p.0, t) && p.2 > sat_add(p.1, t)
}

/// A marked pixel of one of the two pictures.
pub open spec fn marked(p: Rgb, t: u8, agent: bool) -> bool {
    if agent {
        agent_px(p, t)
    } else {
        yaml_px(p, t)
    }
}

/// A marked pixel lies within `tol` pixels (each way, clipped to the
/// picture) of (`cx`, `cy`).
pub open spec fn nearby(c: Canvas, cx: int, cy: int, tol: int, t: u8, agent: bool) -> bool {
    exists|sx: int, sy: int|
        sat_sub(cx, tol) <= sx <= min(cx + tol, c.width - 1) && sat_sub(cy, tol) <= sy <= min(cy + tol, c.height - 1)
            && #[trigger] marked(c.px(sx, sy), t, agent)
}

/// How a pixel of the composite counts.
#[derive(Debug, Clone, Copy, PartialEq, Eq)]
pub enum PixelClass {
    /// Marked in both pictures (within tolerance).
    Both,
    /// Marked by the agent only: the schema missed it.
    AgentOnly,
    /// Marked by the schema only: phantom or wrong bounds.
    YamlOnly,
    Neither,
}

pub open spec fn class_of(dev: Canvas, ren: Canvas, x: int, y: int, t: u8, tol: int) -> PixelClass {
    let a = agent_px(dev.px(x, y), t);
    let m = yaml_px(ren.px(x, y), t);
    if (a && nearby(ren, x, y, tol, t, false)) || (m && nearby(dev, x, y, tol, t, true)) || (a && m) {
        PixelClass::Both
    } else if a {
        PixelClass::AgentOnly
    } else if m {
        PixelClass::YamlOnly
    } else {
        PixelClass::Neither
    }
}

pub open spec fn composite_px(dev: Canvas, ren: Canvas, x: int, y: int, t: u8, tol: int) -> Rgb {
    match class_of(dev, ren, x, y, t, tol) {
        PixelClass::Both => (128, 0, 128),
        PixelClass::AgentOnly => (255, 0, 0),
        PixelClass::YamlOnly => (0, 0, 255),
        PixelClass::Neither => dev.px(x, y),
    }
}

/// How many of the first `n` pixels of row `y` fall in a class.
pub open spec fn row_class_count(dev: Canvas, ren: Canvas, t: u8, tol: int, cls: PixelClass, y: int, n: int) -> nat
    decreases n,
{
    if n <= 0 {
        0
    } else {
        row_class_count(dev, ren, t, tol, cls, y, n - 1) + if class_of(dev, ren, n - 1, y, t, tol) == cls {
            1nat
        } else {
            0nat
        }
    }
}

/// How many pixels of the first `m` rows fall in a class.
pub open spec fn class_count(dev: Canvas, ren: Canvas, t: u8, tol: int, cls: PixelClass, m: int) -> nat
    decreases m,
{
    if m <= 0 {
        0
    } else {
        class_count(dev, ren, t, tol, cls, m - 1) + row_class_count(dev, ren, t, tol, cls, m - 1, dev.width as int)
    }
}

fn sat_add_u8(a: u8, t: u8) -> (r: u8)
    ensures
        r == sat_add(a, t),
{
    if a as u16 + t as u16 > 255 {
        255
    } else {
        a + t
    }
}

fn is_marked(p: Rgb, t: u8, agent: bool) -> (r: bool)
    ensures
        r == marked(p, t, agent),
{
    if agent {
        p.0 > sat_add_u8(p.1, t) && p.0 > sat_add_u8(p.2, t)
    } else {
        p.2 > sat_add_u8(p.0, t) && p.2 > sat_add_u8(p.1, t)
    }
}

fn has_nearby(c: &Canvas, cx: u32, cy: u32, tol: u32, t: u8, agent: bool) -> (r: bool)
    requires
        c.wf(),
        cx < c.width,
        cy < c.height,
    ensures
        r == nearby(*c, cx as int, cy as int, tol as int, t, agent),
{
    let x0: u32 = if cx > tol {
        cx - tol
    } else {
        0
    };
    let y0: u32 = if cy > tol {
        cy - tol
    } else {
        0
    };
    let x1: u32 = if (cx as u64 + tol as u64) < ((c.width - 1) as u64) {
        cx + tol
    } else {
        c.width - 1
    };
    let y1: u32 = if (cy as u64 + tol as u64) < ((c.height - 1) as u64) {
        cy + tol
    } else {
        c.height - 1
    };
    let mut sy = y0;
    while sy <= y1
        invariant
            c.wf(),
            y0 <= sy <= y1 + 1,
            y1 < c.height,
            x0 <= x1 < c.width,
            x0 == sat_sub(cx as int, tol as int),
            x1 == min(cx + tol, c.width - 1),
            y0 == sat_sub(cy as int, tol as int),
            y1 == min(cy + tol, c.height - 1),
            forall|i: int, j: int| x0 <= i <= x1 && y0 <= j < sy ==> !#[trigger] marked(c.px(i, j), t, agent),
        decreases y1 + 1 - sy,
    {
        let mut sx = x0;
        while sx <= x1
            invariant
                c.wf(),
                y0 <= sy <= y1,
                y1 < c.height,
                x0 <= sx <= x1 + 1,
                x1 < c.width,
                x0 == sat_sub(cx as int, tol as int),
                x1 == min(cx + tol, c.width - 1),
                y0 == sat_sub(cy as int, tol as int),
                y1 == min(cy + tol, c.height - 1),
                forall|i: int, j: int| x0 <= i <= x1 && y0 <= j < sy ==> !#[trigger] marked(c.px(i, j), t, agent),
                forall|i: int| x0 <= i < sx ==> !#[trigger] marked(c.px(i, sy as int), t, agent),
            decreases x1 + 1 - sx,
        {
            if is_marked(c.get(sx, sy), t, agent) {
                assert(marked(c.px(sx as int, sy as int), t, agent));
                return true;
            }
            sx = sx + 1;
        }
        sy = sy + 1;
    }
    false
}

/// The outcome of a bounds validation: the composite picture and how many
/// pixels fall in each class.
pub struct BoundsReport {
    pub composite: Canvas,
    pub both: u64,
    pub agent_only: u64,
    pub yaml_only: u64,
    pub neither: u64,
}

fn classify(dev: &Canvas, ren: &Canvas, x: u32, y: u32, t: u8, tol: u32) -> (r: PixelClass)
    requires
        dev.wf(),
        ren.wf(),
        dev.width == ren.width,
        dev.height == ren.height,
        x < dev.width,
        y < dev.height,
    ensures
        r == class_of(*dev, *ren, x as int, y as int, t, tol as int),
{
    let a = is_marked(dev.get(x, y), t, true);
    let m = is_marked(ren.get(x, y), t, false);
    let am = a && has_nearby(ren, x, y, tol, t, false);
    let mm = m && has_nearby(dev, x, y, tol, t, true);
    if am || mm || (a && m) {
        PixelClass::Both
    } else if a {
        PixelClass::AgentOnly
    } else if m {
        PixelClass::YamlOnly
    } else {
        PixelClass::Neither
    }
}

/// Compares the agent's overlay with the schema render, pixel by pixel: a
/// marked pixel matches when the other picture has a marked pixel within
/// `tol` pixels. The composite shows matches purple, agent-only pixels
/// red, schema-only pixels blue, the rest as the device showed them.
pub fn validate_bounds(dev: &Canvas, ren: &Canvas, t: u8, tol: u32) -> (r: BoundsReport)
    requires
        dev.wf(),
        ren.wf(),
        dev.width == ren.width,
        dev.height == ren.height,
    ensures
        r.composite.wf(),
        r.composite.width == dev.width,
        r.composite.height == dev.height,
        forall|x: int, y: int|
            0 <= x < dev.width && 0 <= y < dev.height ==> r.composite.px(x, y) == composite_px(*dev, *ren, x, y, t, tol as int),
        r.both == class_count(*dev, *ren, t, tol as int, PixelClass::Both, dev.height as int),
        r.agent_only == class_count(*dev, *ren, t, tol as int, PixelClass::AgentOnly, dev.height as int),
        r.yaml_only == class_count(*dev, *ren, t, tol as int, PixelClass::YamlOnly, dev.height as int),
        r.neither == class_count(*dev, *ren, t, tol as int, PixelClass::Neither, dev.height as int),
        r.both + r.agent_only + r.yaml_only + r.neither == dev.width * dev.height,
{
    let ghost tl = tol as int;
    let mut rows: Vec<Vec<Rgb>> = Vec::new();
    let mut both: u64 = 0;
    let mut agent_only: u64 = 0;
    let mut yaml_only: u64 = 0;
    let mut neither: u64 = 0;
    let mut y: u32 = 0;
    while y < dev.height
        invariant
            y <= dev.height,
            tl == tol as int,
            dev.wf(),
            ren.wf(),
            dev.width == ren.width,
            dev.height == ren.height,
            rows@.len() == y,
            forall|j: int| 0 <= j < y ==> (#[trigger] rows@[j])@.len() == dev.width,
            forall|j: int, x: int| 0 <= j < y && 0 <= x < dev.width ==> #[trigger] rows@[j]@[x] == composite_px(*dev, *ren, x, j, t, tl),
            both == class_count(*dev, *ren, t, tl, PixelClass::Both, y as int),
            agent_only == class_count(*dev, *ren, t, tl, PixelClass::AgentOnly, y as int),
            yaml_only == class_count(*dev, *ren, t, tl, PixelClass::YamlOnly, y as int),
            neither == class_count(*dev, *ren, t, tl, PixelClass::Neither, y as int),
            both + agent_only + yaml_only + neither == y as int * dev.width as int,
        decreases dev.height - y,
    {
        let ghost b0 = both;
        let ghost a0 = agent_only;
        let ghost y0 = yaml_only;
        let ghost n0 = neither;
        let mut row: Vec<Rgb> = Vec::new();
        let mut x: u32 = 0;
        while x < dev.width
            invariant
                x <= dev.width,
                y < dev.height,
                tl == tol as int,
                dev.wf(),
                ren.wf(),
                dev.width == ren.width,
                dev.height == ren.height,
                row@.len() == x,
                forall|i: int| 0 <= i < x ==> #[trigger] row@[i] == composite_px(*dev, *ren, i, y as int, t, tl),
                both == b0 + row_class_count(*dev, *ren, t, tl, PixelClass::Both, y as int, x as int),
                agent_only == a0 + row_class_count(*dev, *ren, t, tl, PixelClass::AgentOnly, y as int, x as int),
                yaml_only == y0 + row_class_count(*dev, *ren, t, tl, PixelClass::YamlOnly, y as int, x as int),
                neither == n0 + row_class_count(*dev, *ren, t, tl, PixelClass::Neither, y as int, x as int),
                b0 + a0 + y0 + n0 == y as int * dev.width as int,
                both + agent_only + yaml_only + neither == y as int * dev.width as int + x,
            decreases dev.width - x,
        {
            proof {
                assert(y as int * dev.width as int + x + 1 < 0x1_0000_0000 * 0x1_0000_0000) by (nonlinear_arith)
                    requires
                        y < 0x1_0000_0000,
                        x < dev.width,
                        dev.width < 0x1_0000_0000,
                ;
            }
            let cls = classify(dev, ren, x, y, t, tol);
            let p = match cls {
                PixelClass::Both => {
                    both = both + 1;
                    (128u8, 0u8, 128u8)
                },
                PixelClass::AgentOnly => {
                    agent_only = agent_only + 1;
                    (255u8, 0u8, 0u8)
                },
                PixelClass::YamlOnly => {
                    yaml_only = yaml_only + 1;
                    (0u8, 0u8, 255u8)
                },
                PixelClass::Neither => {
                    neither = neither + 1;
                    dev.get(x, y)
                },
            };
            proof {
                let xi = x as int;
                let yi = y as int;
                assert(cls == class_of(*dev, *ren, xi, yi, t, tl));
                assert(p == composite_px(*dev, *ren, xi, yi, t, tl));
                assert(row_class_count(*dev, *ren, t, tl, PixelClass::Both, yi, xi + 1) == row_class_count(
                    *dev, *ren, t, tl, PixelClass::Both, yi, xi) + if cls == PixelClass::Both { 1nat } else { 0nat });
                assert(row_class_count(*dev, *ren, t, tl, PixelClass::AgentOnly, yi, xi + 1) == row_class_count(
                    *dev, *ren, t, tl, PixelClass::AgentOnly, yi, xi) + if cls == PixelClass::AgentOnly { 1nat } else { 0nat });
                assert(row_class_count(*dev, *ren, t, tl, PixelClass::YamlOnly, yi, xi + 1) == row_class_count(
                    *dev, *ren, t, tl, PixelClass::YamlOnly, yi, xi) + if cls == PixelClass::YamlOnly { 1nat } else { 0nat });
                assert(row_class_count(*dev, *ren, t, tl, PixelClass::Neither, yi, xi + 1) == row_class_count(
                    *dev, *ren, t, tl, PixelClass::Neither, yi, xi) + if cls == PixelClass::Neither { 1nat } else { 0nat });
            }
            row.push(p);
            x = x + 1;
        }
        rows.push(row);
        proof {
            assert(y as int * dev.width as int + dev.width as int == (y + 1) as int * dev.width as int) by (nonlinear_arith);
        }
        y = y + 1;
    }
    assert(dev.height as int * dev.width as int == dev.width * dev.height) by (nonlinear_arith);
    BoundsReport {
        composite: Canvas { width: dev.width, height: dev.height, rows },
        both,
        agent_only,
        yaml_only,
        neither,
    }
}

// ---------------------------------------------------------------------------
// Side by side
// ---------------------------------------------------------------------------

/// The background between pictures set side by side.
pub const STRIP_BACKGROUND: Rgb = (240u8, 240u8, 240u8);

/// Where picture `k` starts: the widths of the pictures before it, each
/// followed by the gap.
pub open spec fn strip_offset(imgs: Seq<Canvas>, gap: int, k: int) -> int
    decreases k,
{
    if k <= 0 {
        0
    } else {
        strip_offset(imgs, gap, k - 1) + imgs[k - 1].width + gap
    }
}

/// The tallest of the first `k` pictures.
pub open spec fn strip_height(imgs: Seq<Canvas>, k: int) -> int
    decreases k,
{
    if k <= 0 {
        0
    } else {
        let p = strip_height(imgs, k - 1);
        if imgs[k - 1].height > p {
            imgs[k - 1].height as int
        } else {
            p
        }
    }
}

/// Pixel (`x`, `y`) of the first `k` pictures set side by side: the pixel
/// of the picture under it, else the background.
pub open spec fn strip_px(imgs: Seq<Canvas>, gap: int, k: int, x: int, y: int) -> Rgb
    decreases k,
{
    if k <= 0 {
        STRIP_BACKGROUND
    } else {
        let o = strip_offset(imgs, gap, k - 1);
        let c = imgs[k - 1];
        if o <= x < o + c.width && 0 <= y < c.height {
            c.px(x - o, y)
        } else {
            strip_px(imgs, gap, k - 1, x, y)
        }
    }
}

proof fn lemma_strip_offset_grows(imgs: Seq<Canvas>, gap: int, j: int, k: int)
    requires
        0 <= j <= k,
        gap >= 0,
    ensures
        strip_offset(imgs, gap, j) <= strip_offset(imgs, gap, k),
    decreases k - j,
{
    if j < k {
        lemma_strip_offset_grows(imgs, gap, j, k - 1);
    }
}

/// Sets pictures side by side, left to right, `gap` pixels apart, on a
/// light background as tall as the tallest.
pub fn side_by_side(imgs: &Vec<Canvas>, gap: u32) -> (r: Canvas)
    requires
        imgs@.len() >= 1,
        forall|k: int| 0 <= k < imgs@.len() ==> (#[trigger] imgs@[k]).wf(),
        strip_offset(imgs@, gap as int, imgs@.len() as int) - gap <= u32::MAX,
    ensures
        r.wf(),
        r.width == strip_offset(imgs@, gap as int, imgs@.len() as int) - gap,
        r.height == strip_height(imgs@, imgs@.len() as int),
        forall|x: int, y: int|
            0 <= x < r.width && 0 <= y < r.height ==> r.px(x, y) == strip_px(imgs@, gap as int, imgs@.len() as int, x, y),
{
    let n = imgs.len();
    let mut total: u64 = 0;
    let mut tall: u32 = 0;
    let mut k: usize = 0;
    while k < n
        invariant
            n == imgs@.len(),
            k <= n,
            total == strip_offset(imgs@, gap as int, k as int),
            tall == strip_height(imgs@, k as int),
            strip_offset(imgs@, gap as int, n as int) - gap <= u32::MAX,
        decreases n - k,
    {
        proof {
            lemma_strip_offset_grows(imgs@, gap as int, k + 1, n as int);
        }
        total = total + imgs[k].width as u64 + gap as u64;
        if imgs[k].height > tall {
            tall = imgs[k].height;
        }
        k = k + 1;
    }
    proof {
        lemma_strip_offset_grows(imgs@, gap as int, 1, n as int);
    }
    let width: u32 = (total - gap as u64) as u32;
    let mut c = Canvas::filled(width, tall, STRIP_BACKGROUND);
    let mut k: usize = 0;
    let mut off: u64 = 0;
    while k < n
        invariant
            n == imgs@.len(),
            k <= n,
            forall|q: int| 0 <= q < imgs@.len() ==> (#[trigger] imgs@[q]).wf(),
            off == strip_offset(imgs@, gap as int, k as int),
            width == strip_offset(imgs@, gap as int, n as int) - gap,
            tall == strip_height(imgs@, n as int),
            c.wf(),
            c.width == width,
            c.height == tall,
            forall|i: int, j: int| 0 <= i < width && 0 <= j < tall ==> c.px(i, j) == strip_px(imgs@, gap as int, k as int, i, j),
        decreases n - k,
    {
        let img = &imgs[k];
        proof {
            lemma_strip_offset_grows(imgs@, gap as int, k + 1, n as int);
            lemma_strip_height(imgs@, k as int, n as int);
        }
        let ghost before = c;
        let mut y: u32 = 0;
        while y < img.height
            invariant
                img.wf(),
                *img == imgs@[k as int],
                off + img.width <= width,
                img.height <= tall,
                c.wf(),
                c.width == width,
                c.height == tall,
                before.wf(),
                before.width == width,
                before.height == tall,
                y <= img.height,
                forall|i: int, j: int|
                    0 <= i < width && 0 <= j < tall ==> c.px(i, j) == if off <= i < off + img.width && 0 <= j < y {
                        img.px(i - off, j)
                    } else {
                        before.px(i, j)
                    },
            decreases img.height - y,
        {
            let mut x: u32 = 0;
            while x < img.width
                invariant
                    img.wf(),
                    off + img.width <= width,
                    img.height <= tall,
                    y < img.height,
                    c.wf(),
                    c.width == width,
                    c.height == tall,
                    x <= img.width,
                    forall|i: int, j: int|
                        0 <= i < width && 0 <= j < tall ==> c.px(i, j) == if (off <= i < off + img.width && 0 <= j < y)
                            || (off <= i < off + x && j == y) {
                            img.px(i - off, j)
                        } else {
                            before.px(i, j)
                        },
                decreases img.width - x,
            {
                let p = img.get(x, y);
                c.put((off + x as u64) as u32, y, p);
                x = x + 1;
            }
            y = y + 1;
        }
        off = off + img.width as u64 + gap as u64;
        k = k + 1;
    }
    c
}

proof fn lemma_strip_height(imgs: Seq<Canvas>, k: int, n: int)
    requires
        0 <= k < n,
    ensures
        imgs[k].height <= strip_height(imgs, n),
    decreases n - k,
{
    if k < n - 1 {
        lemma_strip_height(imgs, k, n - 1);
    }
}

// ---------------------------------------------------------------------------
// Structural similarity: the sums it is computed from
// ---------------------------------------------------------------------------

/// The five sums of a structural-similarity measure over a set of pixel
/// pairs: of the first values, of the second, of their squares, and of
/// their products.
pub open spec fn add_terms(p: (int, int, int, int, int), s: int, t: int) -> (int, int, int, int, int) {
    (p.0 + s, p.1 + t, p.2 + s * s, p.3 + t * t, p.4 + s * t)
}

/// The sums over the first `n` pixels of two grey rows.
pub open spec fn row_terms(a: Seq<u8>, b: Seq<u8>, n: int) -> (int, int, int, int, int)
    decreases n,
{
    if n <= 0 {
        (0, 0, 0, 0, 0)
    } else {
        add_terms(row_terms(a, b, n - 1), a[n - 1] as int, b[n - 1] as int)
    }
}

/// The sums over the first `m` rows, each `w` pixels wide, of two grey
/// pictures.
pub open spec fn grid_terms(a: Seq<Vec<u8>>, b: Seq<Vec<u8>>, w: int, m: int) -> (int, int, int, int, int)
    decreases m,
{
    if m <= 0 {
        (0, 0, 0, 0, 0)
    } else {
        let p = grid_terms(a, b, w, m - 1);
        let r = row_terms(a[m - 1]@, b[m - 1]@, w);
        (p.0 + r.0, p.1 + r.1, p.2 + r.2, p.3 + r.3, p.4 + r.4)
    }
}

/// The pixel count and the sums of two grey pictures of the same size.
pub struct GrayStats {
    pub n: u64,
    pub sum_a: u128,
    pub sum_b: u128,
    pub sum_aa: u128,
    pub sum_bb: u128,
    pub sum_ab: u128,
}

proof fn lemma_square_bound(s: u8, t: u8)
    ensures
        0 <= (s as int) * (s as int) <= 65025,
        0 <= (t as int) * (t as int) <= 65025,
        0 <= (s as int) * (t as int) <= 65025,
{
    assert(0 <= (s as int) * (s as int) <= 65025) by (nonlinear_arith)
        requires
            0 <= s <= 255,
    ;
    assert(0 <= (t as int) * (t as int) <= 65025) by (nonlinear_arith)
        requires
            0 <= t <= 255,
    ;
    assert(0 <= (s as int) * (t as int) <= 65025) by (nonlinear_arith)
        requires
            0 <= s <= 255,
            0 <= t <= 255,
    ;
}

/// Sums two grey pictures of `w`×`h` pixels (rows top first) for their
/// structural similarity.
pub fn gray_stats(a: &Vec<Vec<u8>>, b: &Vec<Vec<u8>>, w: u32, h: u32) -> (r: GrayStats)
    requires
        a@.len() == h,
        b@.len() == h,
        forall|y: int| 0 <= y < h ==> (#[trigger] a@[y])@.len() == w,
        forall|y: int| 0 <= y < h ==> (#[trigger] b@[y])@.len() == w,
    ensures
        r.n == w * h,
        (r.sum_a as int, r.sum_b as int, r.sum_aa as int, r.sum_bb as int, r.sum_ab as int) == grid_terms(
            a@,
            b@,
            w as int,
            h as int,
        ),
{
    let mut sa: u128 = 0;
    let mut sb: u128 = 0;
    let mut saa: u128 = 0;
    let mut sbb: u128 = 0;
    let mut sab: u128 = 0;
    let mut k: u128 = 0;
    let mut y: u32 = 0;
    while y < h
        invariant
            y <= h,
            a@.len() == h,
            b@.len() == h,
            forall|j: int| 0 <= j < h ==> (#[trigger] a@[j])@.len() == w,
            forall|j: int| 0 <= j < h ==> (#[trigger] b@[j])@.len() == w,
            (sa as int, sb as int, saa as int, sbb as int, sab as int) == grid_terms(a@, b@, w as int, y as int),
            k <= y * 0x1_0000_0000,
            sa <= k * 255 && sb <= k * 255,
            saa <= k * 65025 && sbb <= k * 65025 && sab <= k * 65025,
        decreases h - y,
    {
        let ra = &a[y as usize];
        let rb = &b[y as usize];
        let ghost p = grid_terms(a@, b@, w as int, y as int);
        let mut x: u32 = 0;
        while x < w
            invariant
                x <= w,
                y < h,
                ra@.len() == w,
                rb@.len() == w,
                (sa - p.0, sb - p.1, saa - p.2, sbb - p.3, sab - p.4) == row_terms(ra@, rb@, x as int),
                k <= y * 0x1_0000_0000 + x,
                sa <= k * 255 && sb <= k * 255,
                saa <= k * 65025 && sbb <= k * 65025 && sab <= k * 65025,
            decreases w - x,
        {
            let s = ra[x as usize];
            let t = rb[x as usize];
            proof {
                lemma_square_bound(s, t);
            }
            sa = sa + s as u128;
            sb = sb + t as u128;
            saa = saa + (s as u128) * (s as u128);
            sbb = sbb + (t as u128) * (t as u128);
            sab = sab + (s as u128) * (t as u128);
            k = k + 1;
            x = x + 1;
        }
        y = y + 1;
    }
    assert((w as int) * (h as int) < 0x1_0000_0000 * 0x1_0000_0000) by (nonlinear_arith)
        requires
            w < 0x1_0000_0000,
            h < 0x1_0000_0000,
    ;
    GrayStats { n: w as u64 * h as u64, sum_a: sa, sum_b: sb, sum_aa: saa, sum_bb: sbb, sum_ab: sab }
}

/// Pictures set side by side keep every pixel: pixel (`x`, `y`) of
/// picture `k` shows at (`x` plus the offset of picture `k`, `y`), whatever
/// the pictures after it.
pub proof fn law_side_by_side_keeps_pictures(imgs: Seq<Canvas>, gap: int, n: int, k: int, x: int, y: int)
    requires
        gap >= 0,
        0 <= k < n <= imgs.len(),
        0 <= x < imgs[k].width,
        0 <= y < imgs[k].height,
    ensures
        strip_px(imgs, gap, n, strip_offset(imgs, gap, k) + x, y) == imgs[k].px(x, y),
    decreases n,
{
    if k < n - 1 {
        lemma_strip_offset_grows(imgs, gap, k + 1, n - 1);
        law_side_by_side_keeps_pictures(imgs, gap, n - 1, k, x, y);
    }
}

} // verus!
