//! Placing schema boxes on a picture: the rightmost edge that sets the
//! density, clipping a scaled box to the picture, and the label plate.

use vstd::prelude::*;

use crate::schema::{SemanticElement, SemanticSchema};
use crate::validate_v2::{is_layout, is_layout_type};

verus! {

/// The rightmost edge `x + w` in dp among the first `n` elements (layout
/// elements left out when `skip_layout`), and never less than 0.
pub open spec fn right_edge_max(es: Seq<SemanticElement>, skip_layout: bool, n: int) -> int
    decreases n,
{
    if n <= 0 {
        0
    } else {
        let p = right_edge_max(es, skip_layout, n - 1);
        let e = es[n - 1];
        if skip_layout && is_layout_type(e.elem_type@) {
            p
        } else if e.bounds.x + e.bounds.w > p {
            e.bounds.x + e.bounds.w
        } else {
            p
        }
    }
}

/// The rightmost edge of a capture's elements, from which the density of a
/// picture is guessed.
pub fn max_right_edge(schema: &SemanticSchema, skip_layout: bool) -> (r: i64)
    ensures
        r == right_edge_max(schema.elements@, skip_layout, schema.elements@.len() as int),
{
    let es = &schema.elements;
    let mut best: i64 = 0;
    let mut i: usize = 0;
    while i < es.len()
        invariant
            i <= es@.len(),
            best == right_edge_max(es@, skip_layout, i as int),
            0 <= best <= 0x1_0000_0000,
        decreases es@.len() - i,
    {
        let e = &es[i];
        if !(skip_layout && is_layout(e.elem_type.as_str())) {
            let edge: i64 = e.bounds.x as i64 + e.bounds.w as i64;
            if edge > best {
                best = edge;
            }
        }
        i = i + 1;
    }
    best
}

/// A box on a picture of `cw`×`ch` pixels: nothing when it starts off the
/// picture (left of or above it, or at or past its far edges) or is empty;
/// else its corner and its size cut to the picture.
pub open spec fn clipped(x: int, y: int, w: int, h: int, cw: int, ch: int) -> Option<(int, int, int, int)> {
    if x < 0 || y < 0 || w == 0 || h == 0 || x >= cw || y >= ch {
        None
    } else {
        Some((x, y, if w < cw - x { w } else { cw - x }, if h < ch - y { h } else { ch - y }))
    }
}

/// Clips a box to a picture.
pub fn clip_box(x: i64, y: i64, w: u32, h: u32, cw: u32, ch: u32) -> (r: Option<(u32, u32, u32, u32)>)
    ensures
        match clipped(x as int, y as int, w as int, h as int, cw as int, ch as int) {
            Some(b) => r == Some((b.0 as u32, b.1 as u32, b.2 as u32, b.3 as u32)),
            None => r is None,
        },
{
    if x < 0 || y < 0 || w == 0 || h == 0 || x >= cw as i64 || y >= ch as i64 {
        None
    } else {
        let xu = x as u32;
        let yu = y as u32;
        let wc = if w < cw - xu {
            w
        } else {
            cw - xu
        };
        let hc = if h < ch - yu {
            h
        } else {
            ch - yu
        };
        Some((xu, yu, wc, hc))
    }
}

/// The dark plate behind an element's label: 6 pixels per character, no
/// wider than the box, 14 pixels high, and cut to the picture.
pub open spec fn plate_size(chars: int, x: int, y: int, w: int, cw: int, ch: int) -> (int, int) {
    let lw = if chars * 6 < w { chars * 6 } else { w };
    let room_w = if cw > x { cw - x } else { 0 };
    let room_h = if ch > y { ch - y } else { 0 };
    (if lw < room_w { lw } else { room_w }, if 14 < room_h { 14 } else { room_h })
}

/// The size of the plate behind a label of `chars` characters drawn at
/// (`x`, `y`) on a box `w` pixels wide.
pub fn label_plate(chars: usize, x: u32, y: u32, w: u32, cw: u32, ch: u32) -> (r: (u32, u32))
    ensures
        (r.0 as int, r.1 as int) == plate_size(chars as int, x as int, y as int, w as int, cw as int, ch as int),
{
    let lw: u32 = if (chars as u128) * 6 < w as u128 {
        (chars * 6) as u32
    } else {
        w
    };
    let room_w: u32 = if cw > x {
        cw - x
    } else {
        0
    };
    let room_h: u32 = if ch > y {
        ch - y
    } else {
        0
    };
    (if lw < room_w {
        lw
    } else {
        room_w
    }, if 14 < room_h {
        14
    } else {
        room_h
    })
}

/// The safe area above a capture's coordinates in pt: 47 on iOS (below
/// the notch), none elsewhere.
pub fn default_safe_top(platform: &str) -> (r: u32)
    ensures
        r == if platform@ == "ios"@ { 47int } else { 0int },
{
    if crate::text::str_eq(platform, "ios") {
        47
    } else {
        0
    }
}

} // verus!
