//! The semantic schema that every command reads: one capture of a screen as
//! a list of typed, bounded UI elements.
//!
//! Decimal quantities (font sizes, radii, border widths, densities) are held
//! as whole numbers of millionths of their unit, so that `13.15` is `13_150_000`.

use vstd::prelude::*;

verus! {

/// A decimal quantity held as a whole number of millionths of its unit.
pub type Micro = i64;

/// One million: the number of `Micro` units in one unit.
pub const MICRO: i64 = 1_000_000;

/// Element bounds in dp (or pt): top-left corner and size.
#[derive(Debug, Clone, Copy, PartialEq, Eq)]
pub struct Bounds {
    pub x: i32,
    pub y: i32,
    pub w: i32,
    pub h: i32,
}

#[derive(Debug)]
pub struct Font {
    pub family: String,
    pub weight: String,
    /// Point size, in millionths.
    pub size: Micro,
}

#[derive(Debug, Clone, Copy, PartialEq, Eq)]
pub struct Padding {
    pub top: i32,
    pub bottom: i32,
    pub start: i32,
    pub end: i32,
}

#[derive(Debug)]
pub struct Icon {
    pub name: String,
    pub format: String,
    pub paths: Vec<String>,
}

#[derive(Debug, Clone, Copy, PartialEq, Eq)]
pub struct Viewport {
    pub width: i32,
    pub height: i32,
    /// Pixels per dp, in millionths.
    pub density: Micro,
}

#[derive(Debug)]
pub struct Gradient {
    pub gradient_type: String,
    pub colors: Vec<String>,
}

#[derive(Debug)]
pub struct Border {
    /// Border width in dp, in millionths.
    pub width: Micro,
    pub color: Option<String>,
}

#[derive(Debug)]
pub struct SemanticElement {
    pub id: String,
    pub platform_id: Option<String>,
    pub elem_type: String,
    pub content: Option<String>,
    pub font: Option<Font>,
    pub color: Option<String>,
    pub foreground: Option<String>,
    pub bounds: Bounds,
    pub clickable: bool,
    pub accessible: Option<bool>,
    pub a11y_label: Option<String>,
    pub a11y_id: Option<String>,
    pub background: Option<String>,
    /// Corner radius in dp, in millionths.
    pub corner_radius: Option<Micro>,
    pub padding: Option<Padding>,
    pub icon: Option<Icon>,
    pub z_index: Option<u64>,
    pub render: Option<String>,
    pub line_count: Option<u32>,
    pub truncated: Option<bool>,
    pub gradient: Option<Gradient>,
    pub border: Option<Border>,
    pub children: Option<Vec<SemanticElement>>,
}

#[derive(Debug)]
pub struct SemanticSchema {
    pub screen: String,
    pub device: String,
    pub platform: String,
    pub timestamp: String,
    pub viewport: Option<Viewport>,
    pub elements: Vec<SemanticElement>,
}

impl SemanticElement {
    /// An element of the given type and bounds with every optional field
    /// empty.
    pub fn new(id: String, elem_type: String, bounds: Bounds) -> (r: SemanticElement)
        ensures
            r.id == id,
            r.elem_type == elem_type,
            r.bounds == bounds,
            r.content is None,
            r.font is None,
            r.color is None,
            r.foreground is None,
            !r.clickable,
            r.accessible is None,
            r.background is None,
            r.corner_radius is None,
            r.icon is None,
            r.z_index is None,
            r.render is None,
            r.line_count is None,
            r.truncated is None,
            r.gradient is None,
            r.border is None,
            r.children is None,
            r.platform_id is None,
            r.a11y_label is None,
            r.a11y_id is None,
            r.padding is None,
    {
        SemanticElement {
            id,
            platform_id: None,
            elem_type,
            content: None,
            font: None,
            color: None,
            foreground: None,
            bounds,
            clickable: false,
            accessible: None,
            a11y_label: None,
            a11y_id: None,
            background: None,
            corner_radius: None,
            padding: None,
            icon: None,
            z_index: None,
            render: None,
            line_count: None,
            truncated: None,
            gradient: None,
            border: None,
            children: None,
        }
    }
}

} // verus!
