//! `vdb render`: what a reconstruction of a capture draws. The drawing
//! itself (fonts, scaling, rasterising) belongs to the caller; this module
//! decides colours, which parts of an element are drawn, how text wraps,
//! and how big the canvas is.

use vstd::prelude::*;
use vstd::utf8::{encode_utf8, is_char_boundary};

use crate::diff::strip_hashes;
use crate::schema::{Bounds, SemanticElement, SemanticSchema};
use crate::validate_v2::{is_layout, is_layout_type};
use crate::text::{chars_of, decode_chars, decoded, str_eq, string_of, subvec};

verus! {

/// An RGB colour.
pub type Rgb = (u8, u8, u8);

/// An RGBA colour.
pub type Rgba = (u8, u8, u8, u8);

/// The border colour of an element type.
pub open spec fn type_color_of(t: Seq<char>) -> Rgb {
    if t == "button"@ {
        (0, 100, 200)
    } else if t == "text"@ {
        (60, 60, 60)
    } else if t == "image"@ {
        (0, 140, 60)
    } else if t == "input"@ {
        (200, 100, 0)
    } else if t == "container"@ {
        (200, 200, 200)
    } else if t == "list"@ || t == "scroll"@ || t == "pager"@ {
        (160, 160, 200)
    } else if t == "toggle"@ {
        (180, 0, 180)
    } else {
        (130, 130, 130)
    }
}

/// The border colour of an element type.
pub fn type_color(elem_type: &str) -> (r: Rgb)
    ensures
        r == type_color_of(elem_type@),
{
    if str_eq(elem_type, "button") {
        (0, 100, 200)
    } else if str_eq(elem_type, "text") {
        (60, 60, 60)
    } else if str_eq(elem_type, "image") {
        (0, 140, 60)
    } else if str_eq(elem_type, "input") {
        (200, 100, 0)
    } else if str_eq(elem_type, "container") {
        (200, 200, 200)
    } else if str_eq(elem_type, "list") || str_eq(elem_type, "scroll") || str_eq(elem_type, "pager") {
        (160, 160, 200)
    } else if str_eq(elem_type, "toggle") {
        (180, 0, 180)
    } else {
        (130, 130, 130)
    }
}

/// The translucent fill of an element type on a screenshot overlay.
pub open spec fn type_fill_of(t: Seq<char>) -> Rgba {
    if t == "button"@ {
        (0, 100, 255, 40)
    } else if t == "text"@ {
        (255, 200, 0, 30)
    } else if t == "image"@ {
        (0, 200, 0, 30)
    } else if t == "input"@ {
        (255, 100, 0, 40)
    } else if t == "container"@ {
        (150, 150, 150, 15)
    } else if t == "list"@ || t == "scroll"@ || t == "pager"@ {
        (100, 100, 200, 15)
    } else {
        (100, 100, 100, 20)
    }
}

/// The translucent fill of an element type on a screenshot overlay.
pub fn type_fill(elem_type: &str) -> (r: Rgba)
    ensures
        r == type_fill_of(elem_type@),
{
    if str_eq(elem_type, "button") {
        (0, 100, 255, 40)
    } else if str_eq(elem_type, "text") {
        (255, 200, 0, 30)
    } else if str_eq(elem_type, "image") {
        (0, 200, 0, 30)
    } else if str_eq(elem_type, "input") {
        (255, 100, 0, 40)
    } else if str_eq(elem_type, "container") {
        (150, 150, 150, 15)
    } else if str_eq(elem_type, "list") || str_eq(elem_type, "scroll") || str_eq(elem_type, "pager") {
        (100, 100, 200, 15)
    } else {
        (100, 100, 100, 20)
    }
}

/// The border of an element type on a screenshot overlay.
pub open spec fn type_border_of(t: Seq<char>) -> Rgba {
    if t == "button"@ {
        (0, 100, 255, 200)
    } else if t == "text"@ {
        (200, 150, 0, 200)
    } else if t == "image"@ {
        (0, 180, 0, 200)
    } else if t == "input"@ {
        (255, 100, 0, 200)
    } else if t == "container"@ {
        (150, 150, 150, 120)
    } else if t == "list"@ || t == "scroll"@ || t == "pager"@ {
        (100, 100, 200, 120)
    } else {
        (100, 100, 100, 150)
    }
}

/// The border of an element type on a screenshot overlay.
pub fn type_border(elem_type: &str) -> (r: Rgba)
    ensures
        r == type_border_of(elem_type@),
{
    if str_eq(elem_type, "button") {
        (0, 100, 255, 200)
    } else if str_eq(elem_type, "text") {
        (200, 150, 0, 200)
    } else if str_eq(elem_type, "image") {
        (0, 180, 0, 200)
    } else if str_eq(elem_type, "input") {
        (255, 100, 0, 200)
    } else if str_eq(elem_type, "container") {
        (150, 150, 150, 120)
    } else if str_eq(elem_type, "list") || str_eq(elem_type, "scroll") || str_eq(elem_type, "pager") {
        (100, 100, 200, 120)
    } else {
        (100, 100, 100, 150)
    }
}

/// Replaces the XML entities `&amp;`, `&lt;`, `&gt;`, `&quot;` and
/// `&apos;` (in that order) by their characters.
pub fn decode_entities(s: &str) -> (r: String)
    ensures
        r@ == decoded(s@),
{
    let v = chars_of(s);
    let d = decode_chars(&v);
    string_of(&d)
}

// ---------------------------------------------------------------------------
// Hex colours
// ---------------------------------------------------------------------------

/// The UTF-8 bytes of a colour without its leading `#`s.
pub open spec fn hex_full(s: Seq<char>) -> Seq<u8> {
    encode_utf8(strip_hashes(s))
}

/// The bytes that hold the colour: an eight-byte `AARRGGBB` value loses
/// its alpha.
pub open spec fn hex_body(s: Seq<char>) -> Seq<u8> {
    let b = hex_full(s);
    if b.len() == 8 {
        b.subrange(2, 8)
    } else {
        b
    }
}

/// A colour text that can be cut where reading it cuts it (at byte 2 of
/// an eight-byte value, and every two bytes of a six-byte one) without
/// splitting a character.
pub open spec fn hex_cuttable(s: Seq<char>) -> bool {
    let b = hex_full(s);
    let g = hex_body(s);
    &&& b.len() == 8 ==> is_char_boundary(b, 2)
    &&& g.len() == 6 ==> is_char_boundary(g, 2) && is_char_boundary(g, 4)
}

/// The value of a hexadecimal digit byte.
pub open spec fn hex_digit(b: u8) -> Option<int> {
    if 48 <= b <= 57 {
        Some(b - 48)
    } else if 97 <= b <= 102 {
        Some(b - 87)
    } else if 65 <= b <= 70 {
        Some(b - 55)
    } else {
        None
    }
}

/// Two bytes read as `u8::from_str_radix(_, 16)` reads them: two hex
/// digits, or `+` and one.
pub open spec fn hex_pair(b0: u8, b1: u8) -> Option<int> {
    if b0 == 43 {
        hex_digit(b1)
    } else {
        match (hex_digit(b0), hex_digit(b1)) {
            (Some(h), Some(l)) => Some(16 * h + l),
            _ => None,
        }
    }
}

/// A colour written `#RRGGBB` or `#AARRGGBB` (any number of leading `#`,
/// alpha ignored).
pub open spec fn parsed_hex(s: Seq<char>) -> Option<Rgb> {
    let g = hex_body(s);
    if g.len() != 6 {
        None
    } else {
        match (hex_pair(g[0], g[1]), hex_pair(g[2], g[3]), hex_pair(g[4], g[5])) {
            (Some(r), Some(gg), Some(b)) => Some((r as u8, gg as u8, b as u8)),
            _ => None,
        }
    }
}

fn digit_value(b: u8) -> (r: Option<u8>)
    ensures
        match r {
            Some(v) => hex_digit(b) == Some(v as int) && v < 16,
            None => hex_digit(b) is None,
        },
{
    if 48 <= b && b <= 57 {
        Some(b - 48)
    } else if 97 <= b && b <= 102 {
        Some(b - 87)
    } else if 65 <= b && b <= 70 {
        Some(b - 55)
    } else {
        None
    }
}

fn pair_value(b0: u8, b1: u8) -> (r: Option<u8>)
    ensures
        match r {
            Some(v) => hex_pair(b0, b1) == Some(v as int),
            None => hex_pair(b0, b1) is None,
        },
{
    if b0 == 43 {
        digit_value(b1)
    } else {
        match (digit_value(b0), digit_value(b1)) {
            (Some(h), Some(l)) => Some(16 * h + l),
            _ => None,
        }
    }
}

fn without_hashes(hex: &str) -> (r: String)
    ensures
        r@ == strip_hashes(hex@),
{
    let v = chars_of(hex);
    let mut i: usize = 0;
    while i < v.len() && v[i] == '#'
        invariant
            i <= v.len(),
            forall|k: int| 0 <= k < i ==> #[trigger] v@[k] == '#',
        decreases v.len() - i,
    {
        i = i + 1;
    }
    proof {
        crate::diff::lemma_strip_hashes(v@, i as int);
    }
    string_of(&subvec(&v, i, v.len()))
}

/// Whether a colour text can be read without cutting a character.
pub fn hex_readable(hex: &str) -> (r: bool)
    ensures
        r == hex_cuttable(hex@),
{
    let t = without_hashes(hex);
    let ts = t.as_str();
    let full = ts.as_bytes();
    assert(full@ == hex_full(hex@));
    if full.len() == 8 {
        if !ts.is_char_boundary(2) {
            return false;
        }
        let (_, g) = ts.split_at(2);
        let gb = g.as_bytes();
        assert(gb@ == hex_body(hex@));
        gb.len() != 6 || (g.is_char_boundary(2) && g.is_char_boundary(4))
    } else {
        assert(full@ == hex_body(hex@));
        full.len() != 6 || (ts.is_char_boundary(2) && ts.is_char_boundary(4))
    }
}

/// Reads a colour written `#RRGGBB` or `#AARRGGBB`.
pub fn parse_hex(hex: &str) -> (r: Option<Rgb>)
    requires
        hex_cuttable(hex@),
    ensures
        r == parsed_hex(hex@),
{
    let t = without_hashes(hex);
    let ts = t.as_str();
    let full = ts.as_bytes();
    assert(full@ == hex_full(hex@));
    let g: &str = if full.len() == 8 {
        let (_, tail) = ts.split_at(2);
        tail
    } else {
        ts
    };
    let b = g.as_bytes();
    assert(b@ == hex_body(hex@));
    if b.len() != 6 {
        return None;
    }
    let r = pair_value(b[0], b[1]);
    let gg = pair_value(b[2], b[3]);
    let bb = pair_value(b[4], b[5]);
    match (r, gg, bb) {
        (Some(r), Some(gg), Some(bb)) => Some((r, gg, bb)),
        _ => None,
    }
}

/// Text on a near-white colour (channel sum above 680) is drawn dark
/// instead, so that it shows on the light canvas.
pub open spec fn readable_color(c: Rgb) -> Rgb {
    if c.0 + c.1 + c.2 > 680 {
        (40, 40, 40)
    } else {
        c
    }
}

/// The colour text is drawn in.
pub fn text_color(c: Rgb) -> (r: Rgb)
    ensures
        r == readable_color(c),
{
    if c.0 as u32 + c.1 as u32 + c.2 as u32 > 680 {
        (40, 40, 40)
    } else {
        c
    }
}

// ---------------------------------------------------------------------------
// Canvas size
// ---------------------------------------------------------------------------

/// The bottom edge of an element plus a 10dp margin, as the canvas height
/// is measured (the edge taken as `u32`, so a negative one wraps round).
pub open spec fn bottom_margin(e: SemanticElement) -> int {
    ((e.bounds.y + e.bounds.h) as u32) as int + 10
}

/// The largest bottom margin of the clickable elements among `es`.
pub open spec fn max_clickable_bottom(es: Seq<SemanticElement>) -> Option<int>
    decreases es.len(),
{
    if es.len() == 0 {
        None
    } else {
        let p = max_clickable_bottom(es.drop_last());
        let e = es.last();
        if e.clickable {
            match p {
                Some(m) => Some(if bottom_margin(e) > m { bottom_margin(e) } else { m }),
                None => Some(bottom_margin(e)),
            }
        } else {
            p
        }
    }
}

/// The canvas height: the lowest clickable element's bottom plus 10dp,
/// else the default, and never more than 100dp past the default.
pub open spec fn viewport_height(es: Seq<SemanticElement>, default: int) -> int {
    let h = match max_clickable_bottom(es) {
        Some(m) => m,
        None => default,
    };
    if h < default + 100 {
        h
    } else {
        default + 100
    }
}

fn bottom_of(e: &SemanticElement) -> (r: u64)
    ensures
        r == bottom_margin(*e),
{
    let sum: i64 = e.bounds.y as i64 + e.bounds.h as i64;
    #[verifier::truncate]
    let edge = sum as u32;
    edge as u64 + 10
}

/// The canvas height of a capture.
pub fn viewport_height_from_elements(schema: &SemanticSchema, default: u32) -> (r: u32)
    requires
        default <= u32::MAX - 100,
    ensures
        r == viewport_height(schema.elements@, default as int),
{
    let es = &schema.elements;
    let mut best: Option<u64> = None;
    let mut i: usize = 0;
    assert(es@.subrange(0, 0) =~= Seq::<SemanticElement>::empty());
    while i < es.len()
        invariant
            i <= es@.len(),
            match best {
                Some(m) => max_clickable_bottom(es@.subrange(0, i as int)) == Some(m as int),
                None => max_clickable_bottom(es@.subrange(0, i as int)) is None,
            },
        decreases es@.len() - i,
    {
        proof {
            let p = es@.subrange(0, i + 1);
            assert(p.drop_last() =~= es@.subrange(0, i as int));
            assert(p.last() == es@[i as int]);
        }
        let e = &es[i];
        if e.clickable {
            let b = bottom_of(e);
            best = match best {
                Some(m) => Some(if b > m { b } else { m }),
                None => Some(b),
            };
        }
        i = i + 1;
    }
    assert(es@.subrange(0, i as int) =~= es@);
    let h: u64 = match best {
        Some(m) => m,
        None => default as u64,
    };
    let cap = default as u64 + 100;
    if h < cap {
        h as u32
    } else {
        cap as u32
    }
}

// ---------------------------------------------------------------------------
// What an element draws
// ---------------------------------------------------------------------------

/// What stands for an icon.
#[derive(Debug)]
pub enum IconPlan {
    /// No icon to draw.
    NoIcon,
    /// Vector paths, filled in a colour.
    Vector(Rgb),
    /// A raster icon, by name (a grey placeholder when it cannot be found).
    Raster(String),
}

/// What drawing an element consists of.
pub struct ElementPlan {
    /// Background fill, when the element has a readable background colour.
    pub background: Option<Rgb>,
    /// The light tint of a small button without background or children.
    pub tint: bool,
    /// Border colour, drawn twice (inset) for a clickable element larger
    /// than 2×2.
    pub border: Rgb,
    pub double_border: bool,
    pub icon: IconPlan,
    /// The decoded text to draw (none for an element with children).
    pub text: Option<String>,
    /// The colour of the text.
    pub text_color: Rgb,
    /// A colour swatch in the corner, when the element declares a colour.
    pub swatch: bool,
    /// The element's ID drawn as a label, when it has neither text nor icon.
    pub label: bool,
}

/// The colours of an element can be read.
pub open spec fn element_colors_ok(e: SemanticElement) -> bool {
    &&& e.background matches Some(b) ==> hex_cuttable(b@)
    &&& e.color matches Some(c) ==> hex_cuttable(c@)
}

pub open spec fn opt_hex(c: Option<String>) -> Option<Rgb> {
    match c {
        Some(s) => parsed_hex(s@),
        None => None,
    }
}

pub open spec fn icon_plan_of(e: SemanticElement) -> Option<IconPlanSpec> {
    match e.icon {
        Some(icon) => if icon.format@ == "vector"@ && icon.paths@.len() > 0 {
            Some(IconPlanSpec::Vector(
                match opt_hex(e.color) {
                    Some(c) => c,
                    None => (60, 60, 60),
                },
            ))
        } else if icon.format@ == "raster"@ || icon.format@ == "xcassets"@ || icon.format@ == "unknown"@ {
            Some(IconPlanSpec::Raster(icon.name@))
        } else {
            None
        },
        None => None,
    }
}

pub enum IconPlanSpec {
    Vector(Rgb),
    Raster(Seq<char>),
}

pub open spec fn icon_view(p: IconPlan) -> Option<IconPlanSpec> {
    match p {
        IconPlan::NoIcon => None,
        IconPlan::Vector(c) => Some(IconPlanSpec::Vector(c)),
        IconPlan::Raster(n) => Some(IconPlanSpec::Raster(n@)),
    }
}

pub open spec fn text_of(e: SemanticElement) -> Option<Seq<char>> {
    if e.children is Some {
        None
    } else {
        match e.content {
            Some(c) => Some(decoded(c@)),
            None => None,
        }
    }
}

/// The plan of an element drawn `w`×`h` pixels: a button is tinted when
/// narrower than `tint_w` and lower than `tint_h`.
pub open spec fn plan_holds(e: SemanticElement, w: u32, h: u32, tint_w: u32, tint_h: u32, p: ElementPlan) -> bool {
    &&& p.background == opt_hex(e.background)
    &&& p.tint == (e.elem_type@ == "button"@ && e.background is None && e.children is None && w < tint_w && h < tint_h)
    &&& p.border == type_color_of(e.elem_type@)
    &&& p.double_border == (e.clickable && w > 2 && h > 2)
    &&& icon_view(p.icon) == icon_plan_of(e)
    &&& match p.text {
        Some(t) => text_of(e) == Some(t@),
        None => text_of(e) is None,
    }
    &&& p.text_color == readable_color(
        match opt_hex(e.color) {
            Some(c) => c,
            None => (20, 20, 20),
        },
    )
    &&& p.swatch == (text_of(e) is Some && e.color is Some)
    &&& p.label == (e.id@.len() > 0 && text_of(e) is None && e.icon is None)
}

/// What an element's plan draws as text: nothing for an element with
/// children or without content; otherwise its content with XML entities
/// decoded, so an entity between text without `&` and text without `&` or
/// `;` is drawn as its character, and content without `&` is drawn as
/// written.
pub proof fn law_plan_text_is_decoded(
    e: SemanticElement,
    w: u32,
    h: u32,
    tint_w: u32,
    tint_h: u32,
    p: ElementPlan,
    t: Seq<char>,
    u: Seq<char>,
)
    requires
        plan_holds(e, w, h, tint_w, tint_h, p),
    ensures
        (e.children is Some || e.content is None) ==> p.text is None,
        (e.children is None && e.content is Some) ==> (p.text matches Some(x) && x@ == decoded(e.content->0@)),
        (e.children is None && e.content is Some && !crate::text::has_char(e.content->0@, '&')) ==> (p.text matches Some(
            x,
        ) && x@ == e.content->0@),
        (e.children is None && e.content is Some && !crate::text::has_char(t, '&') && !crate::text::has_char(u, '&')
            && !crate::text::has_char(u, ';') && e.content->0@ == t + seq!['&', 'a', 'm', 'p', ';'] + u) ==> (
        p.text matches Some(x) && x@ == t + seq!['&'] + u),
{
    if e.content is Some {
        crate::text::law_decoding(e.content->0@);
    }
    if !crate::text::has_char(t, '&') && !crate::text::has_char(u, '&') && !crate::text::has_char(u, ';') {
        crate::text::law_entities_decoded(t, u);
    }
}

fn opt_parse(c: &Option<String>) -> (r: Option<Rgb>)
    requires
        c matches Some(s) ==> hex_cuttable(s@),
    ensures
        r == opt_hex(*c),
{
    match c {
        Some(s) => parse_hex(s.as_str()),
        None => None,
    }
}

/// Whether the colours of an element can be read.
pub fn element_colors_readable(e: &SemanticElement) -> (r: bool)
    ensures
        r == element_colors_ok(*e),
{
    let bg = match &e.background {
        Some(b) => hex_readable(b.as_str()),
        None => true,
    };
    let fg = match &e.color {
        Some(c) => hex_readable(c.as_str()),
        None => true,
    };
    bg && fg
}

/// What drawing an element consists of, for an element drawn `w`×`h`
/// pixels.
pub fn render_plan(e: &SemanticElement, w: u32, h: u32, tint_w: u32, tint_h: u32) -> (r: ElementPlan)
    requires
        element_colors_ok(*e),
    ensures
        plan_holds(*e, w, h, tint_w, tint_h, r),
{
    let background = opt_parse(&e.background);
    let tint = str_eq(e.elem_type.as_str(), "button") && e.background.is_none() && e.children.is_none() && w
        < tint_w && h < tint_h;
    let color = opt_parse(&e.color);
    let icon = match &e.icon {
        Some(icon) => {
            if str_eq(icon.format.as_str(), "vector") && icon.paths.len() > 0 {
                IconPlan::Vector(
                    match color {
                        Some(c) => c,
                        None => (60, 60, 60),
                    },
                )
            } else if str_eq(icon.format.as_str(), "raster") || str_eq(icon.format.as_str(), "xcassets")
                || str_eq(icon.format.as_str(), "unknown") {
                IconPlan::Raster(icon.name.clone())
            } else {
                IconPlan::NoIcon
            }
        },
        None => IconPlan::NoIcon,
    };
    let text = if e.children.is_some() {
        None
    } else {
        match &e.content {
            Some(c) => Some(decode_entities(c.as_str())),
            None => None,
        }
    };
    let text_color = text_color(
        match color {
            Some(c) => c,
            None => (20, 20, 20),
        },
    );
    let has_text = text.is_some();
    ElementPlan {
        background,
        tint,
        border: type_color(e.elem_type.as_str()),
        double_border: e.clickable && w > 2 && h > 2,
        icon,
        text,
        text_color,
        swatch: has_text && e.color.is_some(),
        label: !e.id.as_str().is_empty() && !has_text && e.icon.is_none(),
    }
}

// ---------------------------------------------------------------------------
// Raster icon sets
// ---------------------------------------------------------------------------

/// One image of an asset catalogue's `Contents.json`.
pub struct ImageEntry {
    pub filename: Option<String>,
    pub scale: Option<String>,
}

/// How much an image scale is preferred: `2x`, then `3x`, then `1x`.
pub open spec fn scale_priority(s: Seq<char>) -> int {
    if s == "2x"@ {
        3
    } else if s == "3x"@ {
        2
    } else if s == "1x"@ {
        1
    } else {
        0
    }
}

/// How much an image entry's scale is preferred; an entry without a scale
/// counts as the least preferred.
pub open spec fn entry_priority(scale: Option<String>) -> int {
    match scale {
        Some(s) => scale_priority(s@),
        None => 0,
    }
}

/// The image chosen among the first `n` entries: the first with a file,
/// replaced by a later one with a file whenever the later one's scale is
/// preferred (`2x`, then `3x`, then `1x`, then any other or none).
pub open spec fn best_entry(es: Seq<ImageEntry>, n: int) -> Option<int>
    decreases n,
{
    if n <= 0 {
        None
    } else {
        let prev = best_entry(es, n - 1);
        let e = es[n - 1];
        if e.filename is None {
            prev
        } else {
            match prev {
                None => Some(n - 1),
                Some(b) => if entry_priority(e.scale) > entry_priority(es[b].scale) {
                    Some(n - 1)
                } else {
                    prev
                },
            }
        }
    }
}

proof fn lemma_best_entry(es: Seq<ImageEntry>, n: int)
    requires
        0 <= n <= es.len(),
    ensures
        best_entry(es, n) matches Some(b) ==> 0 <= b < n && es[b].filename is Some,
    decreases n,
{
    if n > 0 {
        lemma_best_entry(es, n - 1);
    }
}

/// The chosen image is the first of the most preferred scale among the
/// entries that have a file, and there is one exactly when some entry has a
/// file.
pub proof fn law_best_image_is_most_preferred(es: Seq<ImageEntry>)
    ensures
        (best_entry(es, es.len() as int) is None) <==> (forall|j: int| 0 <= j < es.len() ==> (#[trigger] es[j]).filename is None),
        best_entry(es, es.len() as int) matches Some(b) ==> {
            &&& 0 <= b < es.len()
            &&& es[b].filename is Some
            &&& forall|j: int|
                0 <= j < es.len() && (#[trigger] es[j]).filename is Some ==> entry_priority(es[j].scale)
                    <= entry_priority(es[b].scale)
            &&& forall|j: int|
                0 <= j < b && (#[trigger] es[j]).filename is Some ==> entry_priority(es[j].scale) < entry_priority(
                    es[b].scale,
                )
        },
{
    lemma_best_most_preferred(es, es.len() as int);
}

proof fn lemma_best_most_preferred(es: Seq<ImageEntry>, n: int)
    requires
        0 <= n <= es.len(),
    ensures
        (best_entry(es, n) is None) <==> (forall|j: int| 0 <= j < n ==> (#[trigger] es[j]).filename is None),
        best_entry(es, n) matches Some(b) ==> {
            &&& 0 <= b < n
            &&& es[b].filename is Some
            &&& forall|j: int|
                0 <= j < n && (#[trigger] es[j]).filename is Some ==> entry_priority(es[j].scale)
                    <= entry_priority(es[b].scale)
            &&& forall|j: int|
                0 <= j < b && (#[trigger] es[j]).filename is Some ==> entry_priority(es[j].scale) < entry_priority(
                    es[b].scale,
                )
        },
    decreases n,
{
    if n > 0 {
        lemma_best_most_preferred(es, n - 1);
        if es[n - 1].filename is Some {
            assert(!(forall|j: int| 0 <= j < n ==> (#[trigger] es[j]).filename is None));
        }
    }
}

fn priority(s: &str) -> (r: u8)
    ensures
        r == scale_priority(s@),
{
    if str_eq(s, "2x") {
        3
    } else if str_eq(s, "3x") {
        2
    } else if str_eq(s, "1x") {
        1
    } else {
        0
    }
}

fn opt_priority(scale: &Option<String>) -> (r: u8)
    ensures
        r == entry_priority(*scale),
{
    match scale {
        Some(s) => priority(s.as_str()),
        None => 0,
    }
}

/// The file of the preferred image of an asset (`2x`, then `3x`, then
/// `1x`).
pub fn best_image_from_contents(images: &Vec<ImageEntry>) -> (r: Option<String>)
    ensures
        match best_entry(images@, images@.len() as int) {
            Some(b) => r matches Some(f) && images@[b].filename matches Some(g) && f@ == g@,
            None => r is None,
        },
{
    let mut best: Option<usize> = None;
    let mut i: usize = 0;
    while i < images.len()
        invariant
            i <= images@.len(),
            match best {
                Some(b) => best_entry(images@, i as int) == Some(b as int),
                None => best_entry(images@, i as int) is None,
            },
        decreases images@.len() - i,
    {
        proof {
            lemma_best_entry(images@, i as int);
        }
        let e = &images[i];
        if e.filename.is_some() {
            match best {
                None => {
                    best = Some(i);
                },
                Some(b) => {
                    if opt_priority(&e.scale) > opt_priority(&images[b].scale) {
                        best = Some(i);
                    }
                },
            }
        }
        i = i + 1;
    }
    proof {
        lemma_best_entry(images@, i as int);
    }
    match best {
        Some(b) => match &images[b].filename {
            Some(f) => Some(f.clone()),
            None => None,
        },
        None => None,
    }
}

// ---------------------------------------------------------------------------
// Wrapped text
// ---------------------------------------------------------------------------

/// Position of the last space among the first `n` characters.
pub open spec fn last_space(s: Seq<char>, n: int) -> Option<int>
    decreases n,
{
    if n <= 0 {
        None
    } else if s[n - 1] == ' ' {
        Some(n - 1)
    } else {
        last_space(s, n - 1)
    }
}

/// The next line of the remaining text: all of it when it fits in `cpl`
/// characters, else its first `cpl` characters cut at their last space.
pub open spec fn next_line(rem: Seq<char>, cpl: int) -> Seq<char> {
    if rem.len() <= cpl {
        rem
    } else {
        match last_space(rem, cpl) {
            Some(k) => rem.take(k),
            None => rem.take(cpl),
        }
    }
}

/// The text lines drawn from `rem` on, each with its top edge: a line
/// (after the first) is drawn only when it fits above `max_y`, and only
/// when it starts on the image; a line starting at or past the image's
/// bottom (read as `u32`) stops the text.
pub open spec fn wrap_from(rem: Seq<char>, cy: int, first: bool, cpl: int, line_h: int, max_y: int, img_h: int)
    -> Seq<(Seq<char>, int)>
    decreases rem.len(),
{
    if rem.len() == 0 || (!first && cy + line_h > max_y) || cpl < 1 {
        Seq::empty()
    } else {
        let line = next_line(rem, cpl);
        let rest = crate::text::trim_start(rem.skip(line.len() as int));
        let shown: Seq<(Seq<char>, int)> = if cy >= 0 && (cy as u32) < img_h {
            seq![(line, cy)]
        } else {
            Seq::empty()
        };
        let ncy = cy + line_h;
        proof {
            lemma_next_line(rem, cpl);
            crate::text::lemma_trim_start_is_suffix(rem.skip(line.len() as int));
        }
        if (ncy as u32) >= img_h {
            shown
        } else {
            shown + wrap_from(rest, ncy, false, cpl, line_h, max_y, img_h)
        }
    }
}

pub proof fn lemma_last_space(s: Seq<char>, n: int)
    requires
        0 <= n <= s.len(),
    ensures
        last_space(s, n) matches Some(k) ==> 0 <= k < n && s[k] == ' ',
    decreases n,
{
    if n > 0 && s[n - 1] != ' ' {
        lemma_last_space(s, n - 1);
    }
}

/// Every step consumes text: the line plus what trimming removes is never
/// empty for a non-empty remainder.
pub proof fn lemma_next_line(rem: Seq<char>, cpl: int)
    requires
        rem.len() > 0,
        cpl >= 1,
    ensures
        next_line(rem, cpl).len() <= rem.len(),
        next_line(rem, cpl) == rem.take(next_line(rem, cpl).len() as int),
        crate::text::trim_start(rem.skip(next_line(rem, cpl).len() as int)).len() < rem.len(),
{
    let line = next_line(rem, cpl);
    if rem.len() > cpl {
        lemma_last_space(rem, cpl);
    } else {
        assert(rem.take(rem.len() as int) =~= rem);
    }
    let after = rem.skip(line.len() as int);
    crate::text::lemma_trim_start_is_suffix(after);
    if line.len() == 0 {
        let k = last_space(rem, cpl)->0;
        assert(k == 0);
        assert(after =~= rem);
        assert(crate::text::is_ws(rem[0]));
        assert(crate::text::trim_start(rem) == crate::text::trim_start(rem.drop_first()));
        crate::text::lemma_trim_start_is_suffix(rem.drop_first());
    }
}

/// Characters per line: the width over the character width, at least one.
pub open spec fn chars_per_line(max_width: int, char_width: int) -> int {
    if max_width >= char_width {
        max_width / char_width
    } else {
        1
    }
}

pub open spec fn lines_view(v: Seq<(String, i128)>) -> Seq<(Seq<char>, int)> {
    v.map_values(|l: (String, i128)| (l.0@, l.1 as int))
}

fn line_len(v: &Vec<char>, p: usize, cpl: usize) -> (r: usize)
    requires
        p < v@.len(),
        cpl >= 1,
    ensures
        r == next_line(v@.skip(p as int), cpl as int).len(),
        p + r <= v@.len(),
{
    let ghost rem = v@.skip(p as int);
    let avail = v.len() - p;
    if avail <= cpl {
        return avail;
    }
    let mut k: usize = cpl;
    while k > 0 && v[p + k - 1] != ' '
        invariant
            k <= cpl,
            p + cpl < v.len(),
            rem == v@.skip(p as int),
            last_space(rem, cpl as int) == last_space(rem, k as int),
        decreases k,
    {
        assert(rem[k - 1] == v@[p + k - 1]);
        k = k - 1;
    }
    proof {
        if k > 0 {
            assert(rem[k - 1] == v@[p + k - 1]);
        }
    }
    if k > 0 {
        k - 1
    } else {
        cpl
    }
}

fn skip_ws(v: &Vec<char>, from: usize) -> (r: usize)
    requires
        from <= v@.len(),
    ensures
        from <= r <= v@.len(),
        v@.skip(r as int) == crate::text::trim_start(v@.skip(from as int)),
{
    let n = v.len();
    let mut q = from;
    while q < n && crate::text::is_whitespace(v[q])
        invariant
            from <= q <= n,
            n == v@.len(),
            forall|m: int| from <= m < q ==> crate::text::is_ws(#[trigger] v@[m]),
        decreases n - q,
    {
        q = q + 1;
    }
    proof {
        let after = v@.skip(from as int);
        assert forall|m: int| 0 <= m < q - from implies crate::text::is_ws(#[trigger] after[m]) by {
            assert(after[m] == v@[from + m]);
        }
        if q < n {
            assert(after[q - from] == v@[q as int]);
        }
        crate::text::lemma_trim_start(after, q - from);
        assert(after.subrange(q - from, after.len() as int) =~= v@.skip(q as int));
    }
    q
}

/// Breaks text into the lines drawn inside a box: `char_width` and
/// `line_height` are the font's advance and line pitch in pixels, the box
/// starts at `y` and is `max_width`×`max_height`, on an image `img_h`
/// pixels high. The first line is always laid out; the result holds the
/// lines that fall on the image, with their top edges.
pub fn wrap_lines(
    text: &str,
    char_width: i32,
    max_width: i32,
    line_height: i32,
    y: i32,
    max_height: i32,
    img_h: u32,
) -> (r: Vec<(String, i128)>)
    ensures
        char_width <= 0 ==> r@.len() == 0,
        char_width > 0 ==> lines_view(r@) == wrap_from(
            text@,
            y as int,
            true,
            chars_per_line(max_width as int, char_width as int),
            line_height as int,
            y + max_height,
            img_h as int,
        ),
{
    let mut out: Vec<(String, i128)> = Vec::new();
    if char_width <= 0 {
        return out;
    }
    let cpl: usize = if max_width >= char_width {
        assert(max_width / char_width >= 1) by (nonlinear_arith)
            requires
                max_width >= char_width,
                char_width > 0,
        ;
        (max_width / char_width) as usize
    } else {
        1
    };
    let ghost gcpl = chars_per_line(max_width as int, char_width as int);
    let ghost target = wrap_from(text@, y as int, true, gcpl, line_height as int, y + max_height, img_h as int);
    let v = chars_of(text);
    let n = v.len();
    let max_y: i128 = y as i128 + max_height as i128;
    let lh: i128 = line_height as i128;
    let mut p: usize = 0;
    let mut cy: i128 = y as i128;
    let mut first = true;
    assert(v@.skip(0) =~= v@);
    assert(lines_view(out@) =~= Seq::<(Seq<char>, int)>::empty());
    loop
        invariant_except_break
            p <= n,
            -0x8000_0000 * (p + 1) <= cy <= 0x8000_0000 * (p + 1),
            lines_view(out@) + wrap_from(v@.skip(p as int), cy as int, first, gcpl, lh as int, max_y as int, img_h as int)
                == target,
        invariant
            n == v@.len(),
            v@ == text@,
            cpl as int == gcpl,
            cpl >= 1,
            max_y == y + max_height,
            lh == line_height,
        ensures
            lines_view(out@) == target,
        decreases n - p,
    {
        let ghost rem = v@.skip(p as int);
        if p >= n || (!first && cy + lh > max_y) {
            assert(wrap_from(rem, cy as int, first, gcpl, lh as int, max_y as int, img_h as int) =~= Seq::<(Seq<char>, int)>::empty());
            assert(lines_view(out@) + Seq::<(Seq<char>, int)>::empty() =~= lines_view(out@));
            break;
        }
        let ghost ofirst = first;
        first = false;
        let len = line_len(&v, p, cpl);
        let ghost line = next_line(rem, gcpl);
        let line_chars = subvec(&v, p, p + len);
        proof {
            lemma_next_line(rem, gcpl);
            assert(line_chars@ =~= rem.take(len as int));
        }
        let ghost ocy = cy;
        let ghost before = lines_view(out@);
        let ghost shown: Seq<(Seq<char>, int)> = if ocy >= 0 && (ocy as u32) < img_h {
            seq![(line, ocy as int)]
        } else {
            Seq::empty()
        };
        if cy >= 0 && (cy as u32) < img_h {
            out.push((string_of(&line_chars), cy));
            assert(lines_view(out@) =~= before + shown);
        } else {
            assert(lines_view(out@) =~= before + shown);
        }
        let q = skip_ws(&v, p + len);
        proof {
            assert(v@.skip(p + len) =~= rem.skip(len as int));
            lemma_next_line(rem, gcpl);
        }
        cy = cy + lh;
        p = q;
        let ghost step = wrap_from(rem, ocy as int, ofirst, gcpl, lh as int, max_y as int, img_h as int);
        if (cy as u32) >= img_h {
            assert(step == shown);
            break;
        }
        assert(step == shown + wrap_from(v@.skip(p as int), cy as int, false, gcpl, lh as int, max_y as int, img_h as int));
        assert(before + step == lines_view(out@) + wrap_from(v@.skip(p as int), cy as int, first, gcpl, lh as int, max_y as int, img_h as int));
    }
    out
}

proof fn lemma_next_line_fits(rem: Seq<char>, cpl: int)
    requires
        cpl >= 1,
    ensures
        next_line(rem, cpl).len() <= cpl,
{
    if rem.len() > cpl {
        lemma_last_space(rem, cpl);
    }
}

/// Wrapped text never lays out a line longer than the characters per
/// line, and lays out lines downward from the box's top.
pub proof fn law_wrap_fits(rem: Seq<char>, cy: int, first: bool, cpl: int, lh: int, max_y: int, img_h: int)
    requires
        lh >= 0,
    ensures
        forall|k: int|
            0 <= k < wrap_from(rem, cy, first, cpl, lh, max_y, img_h).len() ==> (#[trigger] wrap_from(
                rem,
                cy,
                first,
                cpl,
                lh,
                max_y,
                img_h,
            )[k]).0.len() <= cpl && wrap_from(rem, cy, first, cpl, lh, max_y, img_h)[k].1 >= cy,
    decreases rem.len(),
{
    let w = wrap_from(rem, cy, first, cpl, lh, max_y, img_h);
    if !(rem.len() == 0 || (!first && cy + lh > max_y) || cpl < 1) {
        let line = next_line(rem, cpl);
        lemma_next_line(rem, cpl);
        lemma_next_line_fits(rem, cpl);
        let rest = crate::text::trim_start(rem.skip(line.len() as int));
        let ncy = cy + lh;
        law_wrap_fits(rest, ncy, false, cpl, lh, max_y, img_h);
        let shown: Seq<(Seq<char>, int)> = if cy >= 0 && (cy as u32) < img_h {
            seq![(line, cy)]
        } else {
            Seq::empty()
        };
        let tail = wrap_from(rest, ncy, false, cpl, lh, max_y, img_h);
        if (ncy as u32) >= img_h {
            assert(w == shown);
        } else {
            assert(w == shown + tail);
            assert forall|k: int| 0 <= k < w.len() implies (#[trigger] w[k]).0.len() <= cpl && w[k].1 >= cy by {
                if k >= shown.len() {
                    assert(w[k] == tail[k - shown.len()]);
                }
            }
        }
    }
}

// ---------------------------------------------------------------------------
// Canvas size from the bottom navigation
// ---------------------------------------------------------------------------

pub open spec fn nav_ids() -> Seq<Seq<char>> {
    seq![
        "discover"@,
        "search"@,
        "inspiration"@,
        "my_page"@,
        "discovertouch"@,
        "searchtouch"@,
        "inspirationtouch"@,
        "profiletouch"@,
        "discoverTextView"@,
        "searchTextView"@,
    ]
}

/// An element of the bottom navigation: a known tab ID, or a platform ID
/// naming the bottom navigation or one of its first tabs.
pub open spec fn is_nav(e: SemanticElement) -> bool {
    ||| nav_ids().contains(e.id@)
    ||| match e.platform_id {
        Some(p) => crate::text::seq_contains(p@, "bottomNav"@) || crate::text::seq_contains(p@, "BottomNav"@)
            || p@ == "Discover"@ || p@ == "Search"@,
        None => false,
    }
}

/// The largest bottom margin of the navigation elements among `es`.
pub open spec fn max_nav_bottom(es: Seq<SemanticElement>) -> Option<int>
    decreases es.len(),
{
    if es.len() == 0 {
        None
    } else {
        let p = max_nav_bottom(es.drop_last());
        let e = es.last();
        if is_nav(e) {
            match p {
                Some(m) => Some(if bottom_margin(e) > m { bottom_margin(e) } else { m }),
                None => Some(bottom_margin(e)),
            }
        } else {
            p
        }
    }
}

fn nav_element(e: &SemanticElement) -> (r: bool)
    ensures
        r == is_nav(*e),
{
    let ids: Vec<&str> = vec![
        "discover",
        "search",
        "inspiration",
        "my_page",
        "discovertouch",
        "searchtouch",
        "inspirationtouch",
        "profiletouch",
        "discoverTextView",
        "searchTextView",
    ];
    assert(ids.deep_view() =~= nav_ids());
    let mut k: usize = 0;
    while k < ids.len()
        invariant
            k <= ids@.len(),
            ids.deep_view() == nav_ids(),
            forall|j: int| 0 <= j < k ==> #[trigger] nav_ids()[j] != e.id@,
        decreases ids@.len() - k,
    {
        assert(ids.deep_view()[k as int] == ids@[k as int]@);
        if str_eq(ids[k], e.id.as_str()) {
            assert(nav_ids()[k as int] == e.id@);
            return true;
        }
        k = k + 1;
    }
    match &e.platform_id {
        Some(p) => {
            let v = chars_of(p.as_str());
            crate::text::contains(&v, &chars_of("bottomNav")) || crate::text::contains(&v, &chars_of("BottomNav"))
                || str_eq(p.as_str(), "Discover") || str_eq(p.as_str(), "Search")
        },
        None => false,
    }
}

/// The canvas height that the bottom navigation shows: its lowest bottom
/// plus 10dp, else the default.
pub fn nav_viewport_height(schema: &SemanticSchema, default: u32) -> (r: u64)
    ensures
        r == match max_nav_bottom(schema.elements@) {
            Some(m) => m,
            None => default as int,
        },
{
    let es = &schema.elements;
    let mut best: Option<u64> = None;
    let mut i: usize = 0;
    assert(es@.subrange(0, 0) =~= Seq::<SemanticElement>::empty());
    while i < es.len()
        invariant
            i <= es@.len(),
            match best {
                Some(m) => max_nav_bottom(es@.subrange(0, i as int)) == Some(m as int),
                None => max_nav_bottom(es@.subrange(0, i as int)) is None,
            },
        decreases es@.len() - i,
    {
        proof {
            let p = es@.subrange(0, i + 1);
            assert(p.drop_last() =~= es@.subrange(0, i as int));
            assert(p.last() == es@[i as int]);
        }
        let e = &es[i];
        if nav_element(e) {
            let b = bottom_of(e);
            best = match best {
                Some(m) => Some(if b > m { b } else { m }),
                None => Some(b),
            };
        }
        i = i + 1;
    }
    assert(es@.subrange(0, i as int) =~= es@);
    match best {
        Some(m) => m,
        None => default as u64,
    }
}

/// The right edge of an element, as the canvas width is measured (at least
/// 0, taken as `u32`, capped 10dp past the default width).
pub open spec fn capped_right(e: SemanticElement, default_w: int) -> int {
    let r = e.bounds.x + e.bounds.w;
    let ex = if r > 0 { (r as u32) as int } else { 0 };
    if ex < default_w + 10 {
        ex
    } else {
        default_w + 10
    }
}

/// The canvas width: the default, widened to the rightmost element (up to
/// 10dp past the default).
pub open spec fn content_width(es: Seq<SemanticElement>, default_w: int) -> int
    decreases es.len(),
{
    if es.len() == 0 {
        default_w
    } else {
        let p = content_width(es.drop_last(), default_w);
        let c = capped_right(es.last(), default_w);
        if c > p {
            c
        } else {
            p
        }
    }
}

/// The canvas width of a capture.
pub fn canvas_width(schema: &SemanticSchema, default_w: u32) -> (r: u64)
    ensures
        r == content_width(schema.elements@, default_w as int),
{
    let es = &schema.elements;
    let cap: u64 = default_w as u64 + 10;
    let mut w: u64 = default_w as u64;
    let mut i: usize = 0;
    assert(es@.subrange(0, 0) =~= Seq::<SemanticElement>::empty());
    while i < es.len()
        invariant
            i <= es@.len(),
            cap == default_w + 10,
            w == content_width(es@.subrange(0, i as int), default_w as int),
        decreases es@.len() - i,
    {
        proof {
            let p = es@.subrange(0, i + 1);
            assert(p.drop_last() =~= es@.subrange(0, i as int));
            assert(p.last() == es@[i as int]);
        }
        let e = &es[i];
        let right: i64 = e.bounds.x as i64 + e.bounds.w as i64;
        #[verifier::truncate]
        let ex: u64 = if right > 0 {
            (right as u32) as u64
        } else {
            0
        };
        let c = if ex < cap {
            ex
        } else {
            cap
        };
        if c > w {
            w = c;
        }
        i = i + 1;
    }
    assert(es@.subrange(0, i as int) =~= es@);
    w
}

// ---------------------------------------------------------------------------
// The bounds picture
// ---------------------------------------------------------------------------

/// The boxes of an element's children, in order.
pub open spec fn child_boxes(cs: Option<Vec<SemanticElement>>) -> Seq<Bounds> {
    match cs {
        Some(v) => v@.map_values(|c: SemanticElement| c.bounds),
        None => Seq::empty(),
    }
}

/// Whether the bounds picture draws an element: it is no layout element
/// and starts on the canvas's height (`default_h` dp).
pub open spec fn draws_bounds(e: SemanticElement, default_h: int) -> bool {
    !is_layout_type(e.elem_type@) && 0 <= e.bounds.y < default_h
}

/// The boxes that the bounds picture draws, among the first `n` elements:
/// each drawn element's box, then its children's boxes.
pub open spec fn bounds_boxes(es: Seq<SemanticElement>, default_h: int, n: int) -> Seq<Bounds>
    decreases n,
{
    if n <= 0 {
        Seq::empty()
    } else {
        let p = bounds_boxes(es, default_h, n - 1);
        let e = es[n - 1];
        if draws_bounds(e, default_h) {
            p.push(e.bounds) + child_boxes(e.children)
        } else {
            p
        }
    }
}

/// The boxes, in dp, that the bounds picture of a capture draws, in
/// drawing order; the caller scales each and clips it to the canvas.
pub fn bounds_picture_boxes(schema: &SemanticSchema, default_h: u32) -> (r: Vec<Bounds>)
    ensures
        r@ == bounds_boxes(schema.elements@, default_h as int, schema.elements@.len() as int),
{
    let es = &schema.elements;
    let mut out: Vec<Bounds> = Vec::new();
    let mut i: usize = 0;
    while i < es.len()
        invariant
            i <= es@.len(),
            out@ == bounds_boxes(es@, default_h as int, i as int),
        decreases es@.len() - i,
    {
        let e = &es[i];
        if !is_layout(e.elem_type.as_str()) && e.bounds.y >= 0 && (e.bounds.y as u32) < default_h {
            let ghost base = out@.push(e.bounds);
            out.push(e.bounds);
            match &e.children {
                Some(cs) => {
                    let mut k: usize = 0;
                    while k < cs.len()
                        invariant
                            k <= cs@.len(),
                            out@ == base + cs@.subrange(0, k as int).map_values(|c: SemanticElement| c.bounds),
                        decreases cs@.len() - k,
                    {
                        out.push(cs[k].bounds);
                        proof {
                            assert(cs@.subrange(0, k + 1).map_values(|c: SemanticElement| c.bounds) =~= cs@.subrange(
                                0,
                                k as int,
                            ).map_values(|c: SemanticElement| c.bounds).push(cs@[k as int].bounds));
                        }
                        k = k + 1;
                    }
                    assert(cs@.subrange(0, k as int) =~= cs@);
                },
                None => {
                    assert(out@ =~= base + Seq::<Bounds>::empty());
                },
            }
        }
        i = i + 1;
    }
    out
}

// ---------------------------------------------------------------------------
// Shrinking text to its box
// ---------------------------------------------------------------------------

/// Whether text must shrink to fit its box: with `char_w` and `line_h` the
/// advance and pitch of the base size, the text needs more lines than the
/// box holds, and the box holds at most two. An empty box, or a base size
/// too small to measure, never shrinks.
pub open spec fn shrink_needed(chars: int, max_w: int, max_h: int, char_w: int, line_h: int) -> bool {
    if max_w <= 0 || max_h <= 0 || char_w <= 0 || line_h <= 0 {
        false
    } else {
        let per_line = chars_per_line(max_w, char_w);
        let needed = (chars + per_line - 1) / per_line;
        let available = if max_h / line_h > 1 { max_h / line_h } else { 1 };
        needed > available && available <= 2
    }
}

/// Whether a text of `chars` characters must shrink to fit a box of
/// `max_w`×`max_h` pixels.
pub fn needs_shrink(chars: usize, max_w: i32, max_h: i32, char_w: i32, line_h: i32) -> (r: bool)
    ensures
        r == shrink_needed(chars as int, max_w as int, max_h as int, char_w as int, line_h as int),
{
    if max_w <= 0 || max_h <= 0 || char_w <= 0 || line_h <= 0 {
        return false;
    }
    let per_line: u128 = if max_w >= char_w {
        (max_w / char_w) as u128
    } else {
        1
    };
    assert(per_line >= 1) by (nonlinear_arith)
        requires
            per_line == (if max_w >= char_w { max_w / char_w } else { 1 }),
            char_w > 0,
    ;
    let needed: u128 = (chars as u128 + per_line - 1) / per_line;
    let a = max_h / line_h;
    let available: u128 = if a > 1 {
        a as u128
    } else {
        1
    };
    needed > available && available <= 2
}

} // verus!
