//! Element-wise validation against the agent's colour overlay: which
//! elements are checked, the order in which the schema side is painted,
//! the painted reference, and the per-element sample counts and occlusion
//! areas that the verdicts are computed from.

use vstd::prelude::*;

use crate::pixels::{
    chan_diff, close, color_close, diff_u8, draw_fill_rect, draw_stroke_rect, in_rect, in_stroke, Canvas,
};
use crate::render::Rgb;
use crate::schema::{Bounds, SemanticElement, SemanticSchema};
use crate::text::str_eq;

verus! {

// ---------------------------------------------------------------------------
// Which elements are checked
// ---------------------------------------------------------------------------

/// Layout types: they group other elements and draw nothing of their own.
pub open spec fn is_layout_type(t: Seq<char>) -> bool {
    t == "container"@ || t == "list"@ || t == "scroll"@ || t == "pager"@ || t == "view"@
}

/// Whether an element type is a layout type.
pub fn is_layout(t: &str) -> (r: bool)
    ensures
        r == is_layout_type(t@),
{
    str_eq(t, "container") || str_eq(t, "list") || str_eq(t, "scroll") || str_eq(t, "pager") || str_eq(t, "view")
}

/// The viewport in dp that the agent draws on: 390×844 on iOS, 384×832
/// elsewhere.
pub open spec fn viewport_for(platform: Seq<char>) -> (int, int) {
    if platform == "ios"@ {
        (390, 844)
    } else {
        (384, 832)
    }
}

/// The viewport of a platform.
pub fn viewport_of_platform(platform: &str) -> (r: (i32, i32))
    ensures
        (r.0 as int, r.1 as int) == viewport_for(platform@),
{
    if str_eq(platform, "ios") {
        (390, 844)
    } else {
        (384, 832)
    }
}

/// The narrowest full-resolution capture: 1170 pixels on iOS, 1080
/// elsewhere; a narrower picture was scaled down.
pub fn min_capture_width(platform: &str) -> (r: u32)
    ensures
        r == if platform@ == "ios"@ { 1170int } else { 1080int },
{
    if str_eq(platform, "ios") {
        1170
    } else {
        1080
    }
}

/// An element is checked when it draws something of its own, has a
/// positive size, starts inside the viewport, and has no children.
pub open spec fn is_checked(e: SemanticElement, vw: int, vh: int) -> bool {
    &&& !is_layout_type(e.elem_type@)
    &&& e.bounds.w > 0 && e.bounds.h > 0
    &&& e.bounds.x >= 0 && e.bounds.y >= 0
    &&& e.bounds.x < vw && e.bounds.y < vh
    &&& e.children is None
}

/// The indices, in order, of the checked elements among the first `n`.
pub open spec fn checked_indices(es: Seq<SemanticElement>, vw: int, vh: int, n: int) -> Seq<int>
    decreases n,
{
    if n <= 0 {
        Seq::empty()
    } else if is_checked(es[n - 1], vw, vh) {
        checked_indices(es, vw, vh, n - 1).push(n - 1)
    } else {
        checked_indices(es, vw, vh, n - 1)
    }
}

/// The indices of the elements of a capture that are checked, in schema
/// order, for the viewport of its platform.
pub fn checked_elements(schema: &SemanticSchema) -> (r: Vec<usize>)
    ensures
        r@.len() == checked_indices(
            schema.elements@,
            viewport_for(schema.platform@).0,
            viewport_for(schema.platform@).1,
            schema.elements@.len() as int,
        ).len(),
        forall|k: int|
            0 <= k < r@.len() ==> r@[k] as int == #[trigger] checked_indices(
                schema.elements@,
                viewport_for(schema.platform@).0,
                viewport_for(schema.platform@).1,
                schema.elements@.len() as int,
            )[k],
{
    let (vw, vh) = viewport_of_platform(schema.platform.as_str());
    let ghost gw = vw as int;
    let ghost gh = vh as int;
    let es = &schema.elements;
    let mut out: Vec<usize> = Vec::new();
    let mut i: usize = 0;
    while i < es.len()
        invariant
            i <= es@.len(),
            gw == vw as int,
            gh == vh as int,
            out@.len() == checked_indices(es@, gw, gh, i as int).len(),
            forall|k: int| 0 <= k < out@.len() ==> out@[k] as int == #[trigger] checked_indices(es@, gw, gh, i as int)[k],
        decreases es@.len() - i,
    {
        let e = &es[i];
        let keep = !is_layout(e.elem_type.as_str()) && e.bounds.w > 0 && e.bounds.h > 0 && e.bounds.x >= 0
            && e.bounds.y >= 0 && e.bounds.x < vw && e.bounds.y < vh && e.children.is_none();
        assert(keep == is_checked(es@[i as int], gw, gh));
        if keep {
            out.push(i);
        }
        i = i + 1;
    }
    out
}

/// The name an element goes by: its id, else its content, else nothing.
pub open spec fn label_of(e: SemanticElement) -> Seq<char> {
    if e.id@.len() > 0 {
        e.id@
    } else {
        match e.content {
            Some(c) => c@,
            None => Seq::empty(),
        }
    }
}

/// The name an element goes by.
pub fn element_label(e: &SemanticElement) -> (r: String)
    ensures
        r@ == label_of(*e),
{
    if !e.id.as_str().is_empty() {
        e.id.clone()
    } else {
        match &e.content {
            Some(c) => c.clone(),
            None => String::new(),
        }
    }
}

// ---------------------------------------------------------------------------
// Painting order
// ---------------------------------------------------------------------------

/// The painting key of element `i`: its z-index, else its position.
pub open spec fn z_key(z: Seq<Option<u64>>, i: int) -> int {
    match z[i] {
        Some(k) => k as int,
        None => i,
    }
}

/// Element `i` is painted before element `j`: a lower key, or the same
/// key and an earlier position.
pub open spec fn painted_before(z: Seq<Option<u64>>, i: int, j: int) -> bool {
    z_key(z, i) < z_key(z, j) || (z_key(z, i) == z_key(z, j) && i < j)
}

fn key_at(z: &Vec<Option<u64>>, i: usize) -> (r: u128)
    requires
        i < z@.len(),
    ensures
        r as int == z_key(z@, i as int),
{
    match z[i] {
        Some(k) => k as u128,
        None => i as u128,
    }
}

/// The order in which the elements are painted, bottom to top: every
/// position once, by z-index (a missing z-index counts as the position),
/// ties kept in position order.
pub fn z_order(z: &Vec<Option<u64>>) -> (r: Vec<usize>)
    ensures
        r@.len() == z@.len(),
        forall|k: int| 0 <= k < r@.len() ==> #[trigger] r@[k] < z@.len(),
        forall|k: usize| k < z@.len() ==> #[trigger] r@.contains(k),
        forall|a: int, b: int| 0 <= a < b < r@.len() ==> painted_before(z@, #[trigger] r@[a] as int, #[trigger] r@[b] as int),
{
    let mut out: Vec<usize> = Vec::new();
    let mut n: usize = 0;
    while n < z.len()
        invariant
            n <= z@.len(),
            out@.len() == n,
            forall|k: int| 0 <= k < out@.len() ==> #[trigger] out@[k] < n,
            forall|k: usize| k < n ==> #[trigger] out@.contains(k),
            forall|a: int, b: int| 0 <= a < b < out@.len() ==> painted_before(z@, #[trigger] out@[a] as int, #[trigger] out@[b] as int),
        decreases z@.len() - n,
    {
        let kn = key_at(z, n);
        let mut p: usize = 0;
        while p < out.len() && key_at(z, out[p]) <= kn
            invariant
                n < z@.len(),
                p <= out@.len(),
                out@.len() == n,
                forall|k: int| 0 <= k < out@.len() ==> #[trigger] out@[k] < n,
                forall|k: int| 0 <= k < p ==> z_key(z@, #[trigger] out@[k] as int) <= kn,
            decreases out@.len() - p,
        {
            p = p + 1;
        }
        let ghost before = out@;
        proof {
            assert forall|k: int| p <= k < before.len() implies z_key(z@, #[trigger] before[k] as int) > kn by {
                assert(z_key(z@, before[p as int] as int) > kn);
                if k > p {
                    assert(painted_before(z@, before[p as int] as int, before[k] as int));
                }
            }
        }
        out.insert(p, n);
        proof {
            assert forall|k: usize| k <= n implies #[trigger] out@.contains(k) by {
                if k == n {
                    assert(out@[p as int] == n);
                } else {
                    assert(before.contains(k));
                    let w = choose|w: int| 0 <= w < before.len() && before[w] == k;
                    if w < p {
                        assert(out@[w] == k);
                    } else {
                        assert(out@[w + 1] == k);
                    }
                }
            }
            assert forall|a: int, b: int| 0 <= a < b < out@.len() implies painted_before(
                z@,
                #[trigger] out@[a] as int,
                #[trigger] out@[b] as int,
            ) by {
                if b < p {
                    assert(out@[a] == before[a] && out@[b] == before[b]);
                } else if b == p {
                    assert(out@[a] == before[a]);
                } else if a < p {
                    assert(out@[a] == before[a] && out@[b] == before[b - 1]);
                } else if a == p {
                    assert(out@[b] == before[b - 1]);
                } else {
                    assert(out@[a] == before[a - 1] && out@[b] == before[b - 1]);
                }
            }
        }
        n = n + 1;
    }
    out
}

// ---------------------------------------------------------------------------
// Occlusion
// ---------------------------------------------------------------------------

/// The area in dp² that two boxes share.
pub open spec fn overlap_area(a: Bounds, b: Bounds) -> int {
    let ix1 = if a.x > b.x { a.x as int } else { b.x as int };
    let iy1 = if a.y > b.y { a.y as int } else { b.y as int };
    let ix2 = if a.x + a.w < b.x + b.w { a.x + a.w } else { b.x + b.w };
    let iy2 = if a.y + a.h < b.y + b.h { a.y + a.h } else { b.y + b.h };
    if ix2 > ix1 && iy2 > iy1 {
        (ix2 - ix1) * (iy2 - iy1)
    } else {
        0
    }
}

/// The area of box `i` covered by the boxes after it among the first `n`,
/// each counted in full (overlaps between them counted twice).
pub open spec fn occluded_by_later(bs: Seq<Bounds>, i: int, n: int) -> int
    decreases n - i,
{
    if n <= i + 1 {
        0
    } else {
        occluded_by_later(bs, i, n - 1) + overlap_area(bs[i], bs[n - 1])
    }
}

fn overlap(a: &Bounds, b: &Bounds) -> (r: u128)
    ensures
        r == overlap_area(*a, *b),
        r <= 0xffff_ffff_ffff_ffff,
{
    let ix1: i64 = if a.x > b.x { a.x as i64 } else { b.x as i64 };
    let iy1: i64 = if a.y > b.y { a.y as i64 } else { b.y as i64 };
    let ax2: i64 = a.x as i64 + a.w as i64;
    let bx2: i64 = b.x as i64 + b.w as i64;
    let ay2: i64 = a.y as i64 + a.h as i64;
    let by2: i64 = b.y as i64 + b.h as i64;
    let ix2: i64 = if ax2 < bx2 { ax2 } else { bx2 };
    let iy2: i64 = if ay2 < by2 { ay2 } else { by2 };
    if ix2 > ix1 && iy2 > iy1 {
        let dw: u128 = (ix2 - ix1) as u128;
        let dh: u128 = (iy2 - iy1) as u128;
        assert(dw * dh <= 0xffff_ffff * 0xffff_ffff) by (nonlinear_arith)
            requires
                0 < dw <= 0xffff_ffff,
                0 < dh <= 0xffff_ffff,
        ;
        assert(dw * dh > 0) by (nonlinear_arith)
            requires
                0 < dw,
                0 < dh,
        ;
        dw * dh
    } else {
        0
    }
}

/// The area of box `i` that the boxes after it cover, as the visible
/// fraction of a checked element is measured.
pub fn occluded_area(bs: &Vec<Bounds>, i: usize) -> (r: u128)
    requires
        i < bs@.len(),
    ensures
        r == occluded_by_later(bs@, i as int, bs@.len() as int),
{
    let n = bs.len();
    let mut acc: u128 = 0;
    let mut j: usize = i + 1;
    assert(occluded_by_later(bs@, i as int, j as int) == 0);
    while j < n
        invariant
            n == bs@.len(),
            i < j <= n,
            acc == occluded_by_later(bs@, i as int, j as int),
            acc <= (j - i - 1) * 0xffff_ffff_ffff_ffff,
        decreases bs@.len() - j,
    {
        let o = overlap(&bs[i], &bs[j]);
        acc = acc + o;
        j = j + 1;
    }
    acc
}

/// The area of a box in dp².
pub fn box_area(b: &Bounds) -> (r: i64)
    ensures
        r == b.w * b.h,
{
    assert((b.w as int) * (b.h as int) <= 0x8000_0000 * 0x8000_0000) by (nonlinear_arith)
        requires
            -0x8000_0000 <= b.w < 0x8000_0000,
            -0x8000_0000 <= b.h < 0x8000_0000,
    ;
    assert((b.w as int) * (b.h as int) >= -0x8000_0000 * 0x8000_0000) by (nonlinear_arith)
        requires
            -0x8000_0000 <= b.w < 0x8000_0000,
            -0x8000_0000 <= b.h < 0x8000_0000,
    ;
    (b.w as i64) * (b.h as i64)
}

// ---------------------------------------------------------------------------
// The painted reference
// ---------------------------------------------------------------------------

/// One element as the schema side paints it: its box in pixels and its
/// colour.
#[derive(Debug, Clone, Copy)]
pub struct Layer {
    pub x: i32,
    pub y: i32,
    pub w: u32,
    pub h: u32,
    pub color: Rgb,
}

/// The white of the reference canvas.
pub const WHITE: Rgb = (255u8, 255u8, 255u8);

/// Pixel (`i`, `j`) of the reference after the first `k` layers of the
/// painting order: in the fill pass each layer fills its box with its
/// colour; in the stroke pass each layer whitens its box and strokes its
/// outline, `sw` pixels wide, in its colour.
pub open spec fn painted_px(
    layers: Seq<Layer>,
    order: Seq<usize>,
    fill: bool,
    sw: int,
    k: int,
    i: int,
    j: int,
) -> Rgb
    decreases k,
{
    if k <= 0 {
        WHITE
    } else {
        let l = layers[order[k - 1] as int];
        if fill {
            if in_rect(i, j, l.x as int, l.y as int, l.w as int, l.h as int) {
                l.color
            } else {
                painted_px(layers, order, fill, sw, k - 1, i, j)
            }
        } else if in_stroke(i - l.x, j - l.y, l.w as int, l.h as int, sw) {
            l.color
        } else if in_rect(i, j, l.x as int, l.y as int, l.w as int, l.h as int) {
            WHITE
        } else {
            painted_px(layers, order, fill, sw, k - 1, i, j)
        }
    }
}

/// Paints the reference: a white canvas, then each layer in the given
/// order, bottom to top, so that higher layers cover lower ones.
pub fn paint_layers(width: u32, height: u32, layers: &Vec<Layer>, order: &Vec<usize>, fill: bool, sw: u32) -> (r: Canvas)
    requires
        forall|k: int| 0 <= k < order@.len() ==> #[trigger] order@[k] < layers@.len(),
    ensures
        r.wf(),
        r.width == width,
        r.height == height,
        forall|i: int, j: int|
            0 <= i < width && 0 <= j < height ==> r.px(i, j) == painted_px(
                layers@,
                order@,
                fill,
                sw as int,
                order@.len() as int,
                i,
                j,
            ),
{
    let mut c = Canvas::filled(width, height, WHITE);
    let mut k: usize = 0;
    while k < order.len()
        invariant
            k <= order@.len(),
            forall|q: int| 0 <= q < order@.len() ==> #[trigger] order@[q] < layers@.len(),
            c.wf(),
            c.width == width,
            c.height == height,
            forall|i: int, j: int|
                0 <= i < width && 0 <= j < height ==> c.px(i, j) == painted_px(layers@, order@, fill, sw as int, k as int, i, j),
        decreases order@.len() - k,
    {
        let l = layers[order[k]];
        if fill {
            draw_fill_rect(&mut c, l.x, l.y, l.w, l.h, l.color);
        } else {
            draw_fill_rect(&mut c, l.x, l.y, l.w, l.h, WHITE);
            draw_stroke_rect(&mut c, l.x, l.y, l.w, l.h, sw, l.color);
        }
        k = k + 1;
    }
    c
}

// ---------------------------------------------------------------------------
// The difference composite
// ---------------------------------------------------------------------------

/// The difference of two pixels, channel by channel.
pub open spec fn difference_px(a: Rgb, b: Rgb) -> Rgb {
    (chan_diff(a.0, b.0) as u8, chan_diff(a.1, b.1) as u8, chan_diff(a.2, b.2) as u8)
}

/// The difference composite of the device picture and the reference:
/// misalignment shows as bright pixels.
pub fn difference(dev: &Canvas, ren: &Canvas) -> (r: Canvas)
    requires
        dev.wf(),
        ren.wf(),
        dev.width == ren.width,
        dev.height == ren.height,
    ensures
        r.wf(),
        r.width == dev.width,
        r.height == dev.height,
        forall|x: int, y: int|
            0 <= x < dev.width && 0 <= y < dev.height ==> r.px(x, y) == difference_px(dev.px(x, y), ren.px(x, y)),
{
    let mut rows: Vec<Vec<Rgb>> = Vec::new();
    let mut y: u32 = 0;
    while y < dev.height
        invariant
            y <= dev.height,
            dev.wf(),
            ren.wf(),
            dev.width == ren.width,
            dev.height == ren.height,
            rows@.len() == y,
            forall|j: int| 0 <= j < y ==> (#[trigger] rows@[j])@.len() == dev.width,
            forall|j: int, x: int|
                0 <= j < y && 0 <= x < dev.width ==> #[trigger] rows@[j]@[x] == difference_px(dev.px(x, j), ren.px(x, j)),
        decreases dev.height - y,
    {
        let mut row: Vec<Rgb> = Vec::new();
        let mut x: u32 = 0;
        while x < dev.width
            invariant
                x <= dev.width,
                y < dev.height,
                dev.wf(),
                ren.wf(),
                dev.width == ren.width,
                dev.height == ren.height,
                row@.len() == x,
                forall|i: int| 0 <= i < x ==> #[trigger] row@[i] == difference_px(dev.px(i, y as int), ren.px(i, y as int)),
            decreases dev.width - x,
        {
            let a = dev.get(x, y);
            let b = ren.get(x, y);
            row.push((diff_u8(a.0, b.0), diff_u8(a.1, b.1), diff_u8(a.2, b.2)));
            x = x + 1;
        }
        rows.push(row);
        y = y + 1;
    }
    Canvas { width: dev.width, height: dev.height, rows }
}

// ---------------------------------------------------------------------------
// Sampling an element
// ---------------------------------------------------------------------------

/// Whether pixel (`px`, `py`) lies on a picture.
pub open spec fn on_canvas(c: Canvas, px: int, py: int) -> bool {
    0 <= px < c.width && 0 <= py < c.height
}

/// A sample agrees: the device shows the element's device colour there and
/// the reference its reference colour, each within `tol`.
pub open spec fn sample_agrees(dev: Canvas, ren: Canvas, px: int, py: int, dc: Rgb, rc: Rgb, tol: u8) -> bool {
    close(dev.px(px, py), dc, tol) && close(ren.px(px, py), rc, tol)
}

/// Samples and agreeing samples of one row of offsets: `dx` from `dx0`
/// (inclusive) to `dx1` (exclusive) in steps of `step`, at offset `dy`
/// from (`x`, `y`); only offsets that land on the picture count.
pub open spec fn row_samples(
    dev: Canvas,
    ren: Canvas,
    x: int,
    y: int,
    dx0: int,
    dx1: int,
    dy: int,
    step: int,
    dc: Rgb,
    rc: Rgb,
    tol: u8,
) -> (nat, nat)
    decreases if dx1 > dx0 { dx1 - dx0 } else { 0 },
{
    if dx0 >= dx1 || step <= 0 {
        (0, 0)
    } else {
        let rest = row_samples(dev, ren, x, y, dx0 + step, dx1, dy, step, dc, rc, tol);
        if on_canvas(dev, x + dx0, y + dy) {
            (
                rest.0 + 1,
                rest.1 + if sample_agrees(dev, ren, x + dx0, y + dy, dc, rc, tol) { 1nat } else { 0nat },
            )
        } else {
            rest
        }
    }
}

/// Samples and agreeing samples of a block of offsets: rows `dy` from
/// `dy0` to `dy1` in steps of `step`, each the row of `dx` from 0 to `dx1`.
pub open spec fn block_samples(
    dev: Canvas,
    ren: Canvas,
    x: int,
    y: int,
    dx1: int,
    dy0: int,
    dy1: int,
    step: int,
    dc: Rgb,
    rc: Rgb,
    tol: u8,
) -> (nat, nat)
    decreases if dy1 > dy0 { dy1 - dy0 } else { 0 },
{
    if dy0 >= dy1 || step <= 0 {
        (0, 0)
    } else {
        let rest = block_samples(dev, ren, x, y, dx1, dy0 + step, dy1, step, dc, rc, tol);
        let row = row_samples(dev, ren, x, y, 0, dx1, dy0, step, dc, rc, tol);
        (rest.0 + row.0, rest.1 + row.1)
    }
}

fn count_row(
    dev: &Canvas,
    ren: &Canvas,
    x: i32,
    y: i32,
    dx1: u32,
    dy: u32,
    step: u32,
    dc: &Rgb,
    rc: &Rgb,
    tol: u8,
) -> (r: (u64, u64))
    requires
        dev.wf(),
        ren.wf(),
        dev.width == ren.width,
        dev.height == ren.height,
        1 <= step <= 2,
    ensures
        r.0 as int == row_samples(*dev, *ren, x as int, y as int, 0, dx1 as int, dy as int, step as int, *dc, *rc, tol).0,
        r.1 as int == row_samples(*dev, *ren, x as int, y as int, 0, dx1 as int, dy as int, step as int, *dc, *rc, tol).1,
        r.1 <= r.0 <= dx1,
{
    let ghost whole = row_samples(*dev, *ren, x as int, y as int, 0, dx1 as int, dy as int, step as int, *dc, *rc, tol);
    let mut total: u64 = 0;
    let mut agree: u64 = 0;
    let mut dx: u64 = 0;
    let py: i64 = y as i64 + dy as i64;
    while dx < dx1 as u64
        invariant
            dev.wf(),
            ren.wf(),
            dev.width == ren.width,
            dev.height == ren.height,
            1 <= step <= 2,
            py == y + dy,
            dx < dx1 + step,
            agree <= total,
            (step == 1 && total <= dx) || (step == 2 && 2 * total <= dx + 1),
            whole == row_samples(*dev, *ren, x as int, y as int, 0, dx1 as int, dy as int, step as int, *dc, *rc, tol),
            total + row_samples(*dev, *ren, x as int, y as int, dx as int, dx1 as int, dy as int, step as int, *dc, *rc, tol).0
                == whole.0,
            agree + row_samples(*dev, *ren, x as int, y as int, dx as int, dx1 as int, dy as int, step as int, *dc, *rc, tol).1
                == whole.1,
        decreases dx1 as int + 1 - dx,
    {
        let px: i64 = x as i64 + dx as i64;
        if px >= 0 && py >= 0 && px < dev.width as i64 && py < dev.height as i64 {
            total = total + 1;
            let dp = dev.get(px as u32, py as u32);
            let rp = ren.get(px as u32, py as u32);
            if color_close(&dp, dc, tol) && color_close(&rp, rc, tol) {
                agree = agree + 1;
            }
        }
        dx = dx + step as u64;
    }
    (total, agree)
}

fn count_block(
    dev: &Canvas,
    ren: &Canvas,
    x: i32,
    y: i32,
    dx1: u32,
    dy0: u32,
    dy1: u32,
    step: u32,
    dc: &Rgb,
    rc: &Rgb,
    tol: u8,
) -> (r: (u64, u64))
    requires
        dev.wf(),
        ren.wf(),
        dev.width == ren.width,
        dev.height == ren.height,
        1 <= step <= 2,
    ensures
        r.0 as int == block_samples(*dev, *ren, x as int, y as int, dx1 as int, dy0 as int, dy1 as int, step as int, *dc, *rc, tol).0,
        r.1 as int == block_samples(*dev, *ren, x as int, y as int, dx1 as int, dy0 as int, dy1 as int, step as int, *dc, *rc, tol).1,
{
    let ghost whole = block_samples(*dev, *ren, x as int, y as int, dx1 as int, dy0 as int, dy1 as int, step as int, *dc, *rc, tol);
    let mut total: u64 = 0;
    let mut agree: u64 = 0;
    let mut dy: u64 = dy0 as u64;
    let mut rows_done: u64 = 0;
    while dy < dy1 as u64
        invariant
            dev.wf(),
            ren.wf(),
            dev.width == ren.width,
            dev.height == ren.height,
            1 <= step <= 2,
            dy0 <= dy,
            dy == dy0 || dy < dy1 + step,
            rows_done <= dy - dy0,
            agree <= total <= rows_done * 0xffff_ffff,
            whole == block_samples(*dev, *ren, x as int, y as int, dx1 as int, dy0 as int, dy1 as int, step as int, *dc, *rc, tol),
            total + block_samples(*dev, *ren, x as int, y as int, dx1 as int, dy as int, dy1 as int, step as int, *dc, *rc, tol).0
                == whole.0,
            agree + block_samples(*dev, *ren, x as int, y as int, dx1 as int, dy as int, dy1 as int, step as int, *dc, *rc, tol).1
                == whole.1,
        decreases dy1 as int + 1 - dy,
    {
        let (t, a) = count_row(dev, ren, x, y, dx1, dy as u32, step, dc, rc, tol);
        total = total + t;
        agree = agree + a;
        rows_done = rows_done + 1;
        dy = dy + step as u64;
    }
    (total, agree)
}

/// The samples of one element and how many of them agree, in the fill pass:
/// every second pixel of every second row of its box.
pub fn fill_samples(dev: &Canvas, ren: &Canvas, l: &Layer, dc: &Rgb, tol: u8) -> (r: (u64, u64))
    requires
        dev.wf(),
        ren.wf(),
        dev.width == ren.width,
        dev.height == ren.height,
    ensures
        r.0 as int == block_samples(*dev, *ren, l.x as int, l.y as int, l.w as int, 0, l.h as int, 2, *dc, l.color, tol).0,
        r.1 as int == block_samples(*dev, *ren, l.x as int, l.y as int, l.w as int, 0, l.h as int, 2, *dc, l.color, tol).1,
{
    count_block(dev, ren, l.x, l.y, l.w, 0, l.h, 2, dc, &l.color, tol)
}

/// The samples of one element and how many of them agree, in the stroke
/// pass: the top band (`sw` rows, across the box's width but no wider than
/// the picture), then the left band below it (`sw` columns, down to the
/// box's height but no lower than the picture's).
pub fn stroke_samples(dev: &Canvas, ren: &Canvas, l: &Layer, dc: &Rgb, sw: u32, tol: u8) -> (r: (u64, u64))
    requires
        dev.wf(),
        ren.wf(),
        dev.width == ren.width,
        dev.height == ren.height,
    ensures
        ({
            let top = block_samples(
                *dev,
                *ren,
                l.x as int,
                l.y as int,
                if l.w < dev.width { l.w as int } else { dev.width as int },
                0,
                if sw < l.h { sw as int } else { l.h as int },
                1,
                *dc,
                l.color,
                tol,
            );
            let left = block_samples(
                *dev,
                *ren,
                l.x as int,
                l.y as int,
                if sw < l.w { sw as int } else { l.w as int },
                sw as int,
                if l.h < dev.height { l.h as int } else { dev.height as int },
                1,
                *dc,
                l.color,
                tol,
            );
            r.0 as int == top.0 + left.0 && r.1 as int == top.1 + left.1
        }),
{
    let top_w = if l.w < dev.width { l.w } else { dev.width };
    let top_h = if sw < l.h { sw } else { l.h };
    let left_w = if sw < l.w { sw } else { l.w };
    let left_h = if l.h < dev.height { l.h } else { dev.height };
    let (t1, a1) = count_block(dev, ren, l.x, l.y, top_w, 0, top_h, 1, dc, &l.color, tol);
    let (t2, a2) = count_block(dev, ren, l.x, l.y, left_w, sw, left_h, 1, dc, &l.color, tol);
    proof {
        lemma_block_bound(*dev, *ren, l.x as int, l.y as int, top_w as int, 0, top_h as int, 1, *dc, l.color, tol);
        lemma_block_bound(*dev, *ren, l.x as int, l.y as int, left_w as int, sw as int, left_h as int, 1, *dc, l.color, tol);
    }
    (t1 + t2, a1 + a2)
}

proof fn lemma_row_bound(
    dev: Canvas,
    ren: Canvas,
    x: int,
    y: int,
    dx0: int,
    dx1: int,
    dy: int,
    step: int,
    dc: Rgb,
    rc: Rgb,
    tol: u8,
)
    requires
        step == 1,
        0 <= dx0,
    ensures
        row_samples(dev, ren, x, y, dx0, dx1, dy, step, dc, rc, tol).1 <= row_samples(dev, ren, x, y, dx0, dx1, dy, step, dc, rc, tol).0,
        row_samples(dev, ren, x, y, dx0, dx1, dy, step, dc, rc, tol).0 <= if dx1 > dx0 { dx1 - dx0 } else { 0 },
    decreases dx1 - dx0,
{
    if dx0 < dx1 {
        lemma_row_bound(dev, ren, x, y, dx0 + step, dx1, dy, step, dc, rc, tol);
    }
}

proof fn lemma_block_bound(
    dev: Canvas,
    ren: Canvas,
    x: int,
    y: int,
    dx1: int,
    dy0: int,
    dy1: int,
    step: int,
    dc: Rgb,
    rc: Rgb,
    tol: u8,
)
    requires
        step == 1,
        0 <= dx1 <= 0xffff_ffff,
        0 <= dy0,
    ensures
        block_samples(dev, ren, x, y, dx1, dy0, dy1, step, dc, rc, tol).1 <= block_samples(dev, ren, x, y, dx1, dy0, dy1, step, dc, rc, tol).0,
        block_samples(dev, ren, x, y, dx1, dy0, dy1, step, dc, rc, tol).0 <= (if dy1 > dy0 { dy1 - dy0 } else { 0 }) * 0xffff_ffff,
    decreases dy1 - dy0,
{
    if dy0 < dy1 {
        lemma_block_bound(dev, ren, x, y, dx1, dy0 + step, dy1, step, dc, rc, tol);
        lemma_row_bound(dev, ren, x, y, 0, dx1, dy0, step, dc, rc, tol);
    }
}

// ---------------------------------------------------------------------------
// The composite over the screenshot
// ---------------------------------------------------------------------------

/// Screen blending of one channel: `255 - (255 - a)(255 - b) / 255`.
pub open spec fn screen_channel(a: u8, b: u8) -> u8 {
    (255 - ((255 - a) * (255 - b)) / 255) as u8
}

/// Screen blending of two pixels, channel by channel.
pub open spec fn screen_px(a: Rgb, b: Rgb) -> Rgb {
    (screen_channel(a.0, b.0), screen_channel(a.1, b.1), screen_channel(a.2, b.2))
}

fn screen_u8(a: u8, b: u8) -> (r: u8)
    ensures
        r == screen_channel(a, b),
{
    let da: u32 = 255 - a as u32;
    let db: u32 = 255 - b as u32;
    assert(da * db <= 65025) by (nonlinear_arith)
        requires
            da <= 255,
            db <= 255,
    ;
    let p: u32 = da * db;
    assert(p / 255 <= 255) by (nonlinear_arith)
        requires
            p == (255 - a) * (255 - b),
            0 <= a <= 255,
            0 <= b <= 255,
    ;
    255 - (p / 255) as u8
}

/// The composite laid over the screenshot by screen blending, so that the
/// misaligned pixels show on the real screen.
pub fn screen_blend(shot: &Canvas, comp: &Canvas) -> (r: Canvas)
    requires
        shot.wf(),
        comp.wf(),
        shot.width == comp.width,
        shot.height == comp.height,
    ensures
        r.wf(),
        r.width == shot.width,
        r.height == shot.height,
        forall|x: int, y: int|
            0 <= x < shot.width && 0 <= y < shot.height ==> r.px(x, y) == screen_px(shot.px(x, y), comp.px(x, y)),
{
    let mut rows: Vec<Vec<Rgb>> = Vec::new();
    let mut y: u32 = 0;
    while y < shot.height
        invariant
            y <= shot.height,
            shot.wf(),
            comp.wf(),
            shot.width == comp.width,
            shot.height == comp.height,
            rows@.len() == y,
            forall|j: int| 0 <= j < y ==> (#[trigger] rows@[j])@.len() == shot.width,
            forall|j: int, x: int|
                0 <= j < y && 0 <= x < shot.width ==> #[trigger] rows@[j]@[x] == screen_px(shot.px(x, j), comp.px(x, j)),
        decreases shot.height - y,
    {
        let mut row: Vec<Rgb> = Vec::new();
        let mut x: u32 = 0;
        while x < shot.width
            invariant
                x <= shot.width,
                y < shot.height,
                shot.wf(),
                comp.wf(),
                shot.width == comp.width,
                shot.height == comp.height,
                row@.len() == x,
                forall|i: int| 0 <= i < x ==> #[trigger] row@[i] == screen_px(shot.px(i, y as int), comp.px(i, y as int)),
            decreases shot.width - x,
        {
            let a = shot.get(x, y);
            let b = comp.get(x, y);
            row.push((screen_u8(a.0, b.0), screen_u8(a.1, b.1), screen_u8(a.2, b.2)));
            x = x + 1;
        }
        rows.push(row);
        y = y + 1;
    }
    Canvas { width: shot.width, height: shot.height, rows }
}

} // verus!
