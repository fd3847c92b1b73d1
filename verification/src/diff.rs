//! `vdb diff`: compares two semantic schemas, matches their elements and
//! reports what differs, as errors, warnings and information.

use vstd::prelude::*;

use crate::matching::{
    byte_len, derefs, match_elements, matched_state, unflagged, ElementMatch, Matching,
};
use crate::numfmt::{fmt_int, fmt_micro, fmt_nat, fmt_tenths, int_str, micro_str, nat_str, tenths_str};
use crate::schema::{Micro, SemanticElement, SemanticSchema};
use crate::text::{
    append_chars, append_str, chars_eq, chars_of, contains_char, decode_chars, decoded, has_char,
    has_prefix, is_ascii_digit, is_digit, starts_with, str_eq, string_of, to_lowercase,
    to_uppercase, unicode_lowercase, unicode_uppercase,
};
use crate::tolerance::Tolerances;

verus! {

/// Arguments of `vdb diff`.
pub struct DiffArgs {
    /// Source schema YAML (left / reference).
    pub source: String,
    /// Target schema YAML (right / comparison).
    pub target: String,
    /// Output as JSON.
    pub json: bool,
    /// Only compare accessible elements.
    pub accessible_only: bool,
    /// Manifest YAML with a tolerances section.
    pub tolerances: Option<String>,
}

// ---------------------------------------------------------------------------
// Element filters
// ---------------------------------------------------------------------------

/// Lowercased IDs that layout inflation generates start with one of these.
pub open spec fn generated_prefix(l: Seq<char>) -> bool {
    ||| starts_with(l, "linearlayout"@)
    ||| starts_with(l, "constraintlayout"@)
    ||| starts_with(l, "framelayout"@)
    ||| starts_with(l, "relativelayout"@)
    ||| starts_with(l, "cardview"@)
    ||| starts_with(l, "recyclerview"@)
    ||| starts_with(l, "nestedscrollview"@)
    ||| starts_with(l, "scrollview"@)
    ||| starts_with(l, "appbarlayout"@)
    ||| starts_with(l, "coordinatorlayout"@)
    ||| starts_with(l, "collapsingtoolbar"@)
}

/// An ID that layout inflation generated: a layout class prefix
/// (case-insensitive), an underscore and a digit.
pub open spec fn generated_id(id: Seq<char>) -> bool {
    &&& generated_prefix(unicode_lowercase(id))
    &&& has_char(id, '_')
    &&& exists|k: int| 0 <= k < id.len() && is_digit(#[trigger] id[k])
}

/// A container or view without content whose ID was generated.
pub open spec fn generated_container(e: SemanticElement) -> bool {
    &&& (e.elem_type@ == "container"@ || e.elem_type@ == "view"@)
    &&& e.content is None
    &&& e.id@.len() > 0
    &&& generated_id(e.id@)
}

/// IDs of the viewport wrappers, lowercased prefixes.
pub open spec fn root_container(id: Seq<char>) -> bool {
    let l = unicode_lowercase(id);
    &&& id.len() > 0
    &&& {
        ||| starts_with(l, "decorview"@)
        ||| starts_with(l, "framelayout"@)
        ||| starts_with(l, "action_bar_root"@)
        ||| starts_with(l, "content"@)
        ||| starts_with(l, "coordinatorlayout"@)
        ||| starts_with(l, "linearlayout_0_0"@)
        ||| starts_with(l, "framelayout_0_0_0"@)
        ||| starts_with(l, "framelayout_0_0_1"@)
    }
}

/// Elements that take part in a comparison.
pub open spec fn kept(e: SemanticElement, accessible_only: bool) -> bool {
    !generated_container(e) && (!accessible_only || e.accessible == Some(true))
}

pub open spec fn kept_elements(es: Seq<SemanticElement>, accessible_only: bool) -> Seq<SemanticElement>
    decreases es.len(),
{
    if es.len() == 0 {
        Seq::empty()
    } else if kept(es.last(), accessible_only) {
        kept_elements(es.drop_last(), accessible_only).push(es.last())
    } else {
        kept_elements(es.drop_last(), accessible_only)
    }
}

fn has_prefix_str(v: &Vec<char>, p: &str) -> (r: bool)
    ensures
        r == starts_with(v@, p@),
{
    let pv = chars_of(p);
    has_prefix(v, &pv)
}

fn has_ascii_digit(v: &Vec<char>) -> (r: bool)
    ensures
        r == exists|k: int| 0 <= k < v@.len() && is_digit(#[trigger] v@[k]),
{
    let mut i: usize = 0;
    while i < v.len()
        invariant
            i <= v.len(),
            forall|k: int| 0 <= k < i ==> !is_digit(#[trigger] v@[k]),
        decreases v.len() - i,
    {
        if is_ascii_digit(v[i]) {
            return true;
        }
        i = i + 1;
    }
    false
}

/// Whether an ID looks generated by layout inflation
/// (`linearlayout_0_1`, `FrameLayout_2`, ...).
pub fn lazy_static_regex(id: &str) -> (r: bool)
    ensures
        r == generated_id(id@),
{
    let lower_s = to_lowercase(id);
    let l = chars_of(lower_s.as_str());
    let prefixed = has_prefix_str(&l, "linearlayout") || has_prefix_str(&l, "constraintlayout")
        || has_prefix_str(&l, "framelayout") || has_prefix_str(&l, "relativelayout")
        || has_prefix_str(&l, "cardview") || has_prefix_str(&l, "recyclerview")
        || has_prefix_str(&l, "nestedscrollview") || has_prefix_str(&l, "scrollview")
        || has_prefix_str(&l, "appbarlayout") || has_prefix_str(&l, "coordinatorlayout")
        || has_prefix_str(&l, "collapsingtoolbar");
    if !prefixed {
        return false;
    }
    let v = chars_of(id);
    contains_char(&v, '_') && has_ascii_digit(&v)
}

/// Whether an element is a generated layout container that the comparison
/// skips.
pub fn is_generated_container(e: &SemanticElement) -> (r: bool)
    ensures
        r == generated_container(*e),
{
    if !str_eq(e.elem_type.as_str(), "container") && !str_eq(e.elem_type.as_str(), "view") {
        return false;
    }
    if e.content.is_some() {
        return false;
    }
    if e.id.as_str().is_empty() {
        return false;
    }
    lazy_static_regex(e.id.as_str())
}

/// Whether an ID names a viewport wrapper, whose bounds are not compared.
pub fn is_root_container(id: &str) -> (r: bool)
    ensures
        r == root_container(id@),
{
    if id.is_empty() {
        return false;
    }
    let lower_s = to_lowercase(id);
    let l = chars_of(lower_s.as_str());
    has_prefix_str(&l, "decorview") || has_prefix_str(&l, "framelayout") || has_prefix_str(
        &l,
        "action_bar_root",
    ) || has_prefix_str(&l, "content") || has_prefix_str(&l, "coordinatorlayout")
        || has_prefix_str(&l, "linearlayout_0_0") || has_prefix_str(&l, "framelayout_0_0_0")
        || has_prefix_str(&l, "framelayout_0_0_1")
}

/// The elements of a schema that take part in a comparison, in order.
pub fn kept_refs<'a>(es: &'a Vec<SemanticElement>, accessible_only: bool) -> (r: Vec<&'a SemanticElement>)
    ensures
        derefs(r@) == kept_elements(es@, accessible_only),
{
    let mut out: Vec<&SemanticElement> = Vec::new();
    let mut i: usize = 0;
    while i < es.len()
        invariant
            i <= es.len(),
            derefs(out@) == kept_elements(es@.subrange(0, i as int), accessible_only),
        decreases es.len() - i,
    {
        let e = &es[i];
        let keep = !is_generated_container(e) && (!accessible_only || e.accessible == Some(true));
        let ghost before = out@;
        if keep {
            out.push(e);
        }
        assert(es@.subrange(0, i + 1).drop_last() =~= es@.subrange(0, i as int));
        assert(es@.subrange(0, i + 1).last() == es@[i as int]);
        assert(derefs(out@) =~= kept_elements(es@.subrange(0, i + 1), accessible_only));
        i = i + 1;
    }
    assert(es@.subrange(0, es.len() as int) =~= es@);
    out
}

// ---------------------------------------------------------------------------
// Colours
// ---------------------------------------------------------------------------

/// `s` without its leading `#` characters.
pub open spec fn strip_hashes(s: Seq<char>) -> Seq<char>
    decreases s.len(),
{
    if s.len() > 0 && s[0] == '#' {
        strip_hashes(s.drop_first())
    } else {
        s
    }
}

pub open spec fn color_upper(c: Seq<char>) -> Seq<char> {
    unicode_uppercase(strip_hashes(c))
}

/// A colour whose uppercase form, when eight bytes long, can be cut after its
/// second byte (an `AARRGGBB` colour whose alpha can be dropped).
pub open spec fn color_sliceable(c: Seq<char>) -> bool {
    let u = color_upper(c);
    byte_len(u) == 8 ==> vstd::utf8::is_char_boundary(vstd::utf8::encode_utf8(u), 2)
}

/// A colour in comparable form: leading `#`s removed, uppercased, and an
/// eight-byte value cut to its last six bytes (alpha dropped).
pub open spec fn normalized_color(c: Seq<char>) -> Seq<char> {
    let u = color_upper(c);
    let bytes = vstd::utf8::encode_utf8(u);
    if byte_len(u) == 8 {
        vstd::utf8::decode_utf8(bytes.subrange(2, bytes.len() as int))
    } else {
        u
    }
}

pub proof fn lemma_strip_hashes(s: Seq<char>, i: int)
    requires
        0 <= i <= s.len(),
        forall|k: int| 0 <= k < i ==> #[trigger] s[k] == '#',
        i == s.len() || s[i] != '#',
    ensures
        strip_hashes(s) == s.subrange(i, s.len() as int),
    decreases i,
{
    if i == 0 {
        assert(s.subrange(0, s.len() as int) =~= s);
    } else {
        let t = s.drop_first();
        assert forall|k: int| 0 <= k < i - 1 implies #[trigger] t[k] == '#' by {
            assert(t[k] == s[k + 1]);
        }
        lemma_strip_hashes(t, i - 1);
        assert(t.subrange(i - 1, t.len() as int) =~= s.subrange(i, s.len() as int));
    }
}

/// A colour in comparable form (`#ff08292f` and `08292F` compare equal).
pub fn normalize_color(hex: &str) -> (r: String)
    requires
        color_sliceable(hex@),
    ensures
        r@ == normalized_color(hex@),
{
    let v = chars_of(hex);
    let mut i: usize = 0;
    while i < v.len() && v[i] == '#'
        invariant
            i <= v.len(),
            forall|k: int| 0 <= k < i ==> #[trigger] v@[k] == '#',
        decreases v.len() - i,
    {
        i = i + 1;
    }
    proof {
        lemma_strip_hashes(v@, i as int);
    }
    let rest = crate::text::subvec(&v, i, v.len());
    let rs = string_of(&rest);
    let upper = to_uppercase(rs.as_str());
    let us = upper.as_str();
    if us.len() == 8 {
        let (_, tail) = us.split_at(2);
        let tv = chars_of(tail);
        proof {
            vstd::utf8::encode_utf8_decode_utf8(tail@);
        }
        string_of(&tv)
    } else {
        upper
    }
}

/// Whether two colours are the same once normalised.
pub fn colors_equal(a: &str, b: &str) -> (r: bool)
    requires
        color_sliceable(a@),
        color_sliceable(b@),
    ensures
        r == (normalized_color(a@) == normalized_color(b@)),
{
    let x = normalize_color(a);
    let y = normalize_color(b);
    str_eq(x.as_str(), y.as_str())
}

/// Whether a colour can be normalised without being cut inside a character.
pub fn is_color_sliceable(c: &str) -> (r: bool)
    ensures
        r == color_sliceable(c@),
{
    let v = chars_of(c);
    let mut i: usize = 0;
    while i < v.len() && v[i] == '#'
        invariant
            i <= v.len(),
            forall|k: int| 0 <= k < i ==> #[trigger] v@[k] == '#',
        decreases v.len() - i,
    {
        i = i + 1;
    }
    proof {
        lemma_strip_hashes(v@, i as int);
    }
    let rest = crate::text::subvec(&v, i, v.len());
    let rs = string_of(&rest);
    let upper = to_uppercase(rs.as_str());
    let us = upper.as_str();
    us.len() != 8 || us.is_char_boundary(2)
}

/// The colour distance (CIEDE2000) between two colours as written, in
/// millionths.
#[derive(Debug)]
pub struct ColorDistance {
    pub a: String,
    pub b: String,
    pub delta_e: Micro,
}

/// The distance recorded for a pair of colours: the first entry for exactly
/// that pair.
pub open spec fn delta_lookup(table: Seq<ColorDistance>, a: Seq<char>, b: Seq<char>) -> Option<int>
    decreases table.len(),
{
    if table.len() == 0 {
        None
    } else if table[0].a@ == a && table[0].b@ == b {
        Some(table[0].delta_e as int)
    } else {
        delta_lookup(table.drop_first(), a, b)
    }
}

fn find_delta(table: &Vec<ColorDistance>, a: &str, b: &str) -> (r: Option<Micro>)
    ensures
        r matches Some(d) ==> delta_lookup(table@, a@, b@) == Some(d as int),
        r is None ==> delta_lookup(table@, a@, b@) is None,
{
    let mut i: usize = 0;
    assert(table@.subrange(0, table.len() as int) =~= table@);
    while i < table.len()
        invariant
            i <= table.len(),
            delta_lookup(table@.subrange(i as int, table.len() as int), a@, b@) == delta_lookup(
                table@,
                a@,
                b@,
            ),
        decreases table.len() - i,
    {
        let ghost rest = table@.subrange(i as int, table.len() as int);
        assert(rest[0] == table@[i as int]);
        if str_eq(table[i].a.as_str(), a) && str_eq(table[i].b.as_str(), b) {
            return Some(table[i].delta_e);
        }
        assert(rest.drop_first() =~= table@.subrange(i + 1, table.len() as int));
        i = i + 1;
    }
    None
}

// ---------------------------------------------------------------------------
// Diagnostics
// ---------------------------------------------------------------------------

#[derive(Debug, Clone, Copy, PartialEq, Eq)]
pub enum Severity {
    Error,
    Warning,
    Info,
}

/// One difference found between the two captures.
#[derive(Debug)]
pub struct Diagnostic {
    pub severity: Severity,
    pub message: String,
}

pub type DiagView = (Severity, Seq<char>);

pub open spec fn diag_view(d: Diagnostic) -> DiagView {
    (d.severity, d.message@)
}

pub open spec fn diags_view(v: Seq<Diagnostic>) -> Seq<DiagView> {
    v.map_values(|d: Diagnostic| diag_view(d))
}

pub open spec fn when(b: bool, d: DiagView) -> Seq<DiagView> {
    if b {
        seq![d]
    } else {
        Seq::empty()
    }
}

/// A measured drift within tolerance is information, otherwise a warning.
pub open spec fn verdict(within: bool) -> Severity {
    if within {
        Severity::Info
    } else {
        Severity::Warning
    }
}

pub open spec fn suffix(within: bool) -> Seq<char> {
    if within {
        " within tolerance"@
    } else {
        " VIOLATION"@
    }
}

pub open spec fn bool_str(b: bool) -> Seq<char> {
    if b {
        "true"@
    } else {
        "false"@
    }
}

pub open spec fn abs(x: int) -> int {
    if x < 0 {
        -x
    } else {
        x
    }
}

pub open spec fn max(a: int, b: int) -> int {
    if a < b {
        b
    } else {
        a
    }
}

/// Debug form (`["#FFF", "#000"]`) of a list of strings, as `format!("{:?}")`
/// prints it.
pub uninterp spec fn debug_list(v: Seq<Seq<char>>) -> Seq<char>;

/// `format!("{:?}", v)` on a list of strings: the result is named
/// `debug_list` of the strings; nothing more is claimed of it.
#[verifier::external_body]
fn debug_strings(v: &Vec<String>) -> (r: String)
    ensures
        r@ == debug_list(v.deep_view()),
{
    format!("{:?}", v)
}

/// The name a match is reported under: its source ID, else its source
/// content, else `(unnamed)`.
pub open spec fn match_label(s: SemanticElement) -> Seq<char> {
    if s.id@.len() > 0 {
        s.id@
    } else {
        match s.content {
            Some(c) => c@,
            None => "(unnamed)"@,
        }
    }
}

pub open spec fn decoded_content(e: SemanticElement) -> Option<Seq<char>> {
    match e.content {
        Some(c) => Some(decoded(c@)),
        None => None,
    }
}

pub open spec fn or_none(c: Option<Seq<char>>) -> Seq<char> {
    match c {
        Some(x) => x,
        None => "(none)"@,
    }
}

pub open spec fn text_diags(id: Seq<char>, sp: Seq<char>, tp: Seq<char>, s: SemanticElement, t: SemanticElement) -> Seq<DiagView> {
    let sc = decoded_content(s);
    let tc = decoded_content(t);
    when(
        sc != tc,
        (
            Severity::Error,
            "WRONG_TEXT: "@ + id + " — "@ + sp + ":\""@ + or_none(sc) + "\" "@ + tp + ":\""@
                + or_none(tc) + "\""@,
        ),
    )
}

pub open spec fn type_diags(id: Seq<char>, sp: Seq<char>, tp: Seq<char>, s: SemanticElement, t: SemanticElement) -> Seq<DiagView> {
    when(
        s.elem_type@ != t.elem_type@,
        (
            Severity::Warning,
            "WRONG_TYPE: "@ + id + " — "@ + sp + ":"@ + s.elem_type@ + " "@ + tp + ":"@
                + t.elem_type@,
        ),
    )
}

/// A colour difference: information when a tolerance is given and the
/// recorded distance is within it, a warning otherwise.
pub open spec fn color_check(
    tag: Seq<char>,
    id: Seq<char>,
    sp: Seq<char>,
    tp: Seq<char>,
    a: Seq<char>,
    b: Seq<char>,
    tol: Option<Tolerances>,
    table: Seq<ColorDistance>,
) -> DiagView {
    let de = delta_lookup(table, a, b);
    let within = match (tol, de) {
        (Some(t), Some(d)) => d <= t.color_delta_e,
        _ => false,
    };
    let de_text = match de {
        Some(d) => tenths_str(d, 1_000_000),
        None => "?"@,
    };
    (
        verdict(within),
        tag + ": "@ + id + " — "@ + sp + ":"@ + a + " "@ + tp + ":"@ + b + " (ΔE="@ + de_text
            + suffix(within) + ")"@,
    )
}

pub open spec fn color_pair_diags(
    tag: Seq<char>,
    id: Seq<char>,
    sp: Seq<char>,
    tp: Seq<char>,
    a: Option<String>,
    b: Option<String>,
    tol: Option<Tolerances>,
    table: Seq<ColorDistance>,
) -> Seq<DiagView> {
    match (a, b) {
        (Some(x), Some(y)) => when(
            normalized_color(x@) != normalized_color(y@),
            color_check(tag, id, sp, tp, x@, y@, tol, table),
        ),
        _ => Seq::empty(),
    }
}

/// The text colour: the foreground, else the colour.
pub open spec fn text_color(e: SemanticElement) -> Option<String> {
    match e.foreground {
        Some(f) => Some(f),
        None => e.color,
    }
}

pub open spec fn font_diags(
    id: Seq<char>,
    sp: Seq<char>,
    tp: Seq<char>,
    s: SemanticElement,
    t: SemanticElement,
    tol: Option<Tolerances>,
) -> Seq<DiagView> {
    match (s.font, t.font) {
        (Some(sf), Some(tf)) => {
            let family = when(
                sf.family@.len() > 0 && tf.family@.len() > 0 && unicode_lowercase(sf.family@)
                    != unicode_lowercase(tf.family@),
                (
                    Severity::Info,
                    "DIFF_FONT_FAMILY: "@ + id + " — "@ + sp + ":"@ + sf.family@ + " "@ + tp + ":"@
                        + tf.family@,
                ),
            );
            let weight = when(
                sf.weight@.len() > 0 && tf.weight@.len() > 0 && sf.weight@ != tf.weight@,
                (
                    Severity::Warning,
                    "WRONG_FONT_WEIGHT: "@ + id + " — "@ + sp + ":"@ + sf.weight@ + " "@ + tp + ":"@
                        + tf.weight@ + " VIOLATION"@,
                ),
            );
            let a = sf.size as int;
            let b = tf.size as int;
            let size = if a > 0 && b > 0 {
                let diff = abs(a - b);
                let mx = max(a, b);
                let within = match tol {
                    None => diff <= 1_000_000,
                    Some(t) => diff * 100 * 1_000_000 <= t.text_size_pct * mx,
                };
                when(
                    diff > 500_000,
                    (
                        verdict(within),
                        "WRONG_FONT_SIZE: "@ + id + " — "@ + sp + ":"@ + micro_str(a) + "sp "@ + tp
                            + ":"@ + micro_str(b) + "sp ("@ + tenths_str(diff * 100, mx) + "%"@
                            + suffix(within) + ")"@,
                    ),
                )
            } else {
                Seq::empty()
            };
            family + weight + size
        },
        _ => Seq::empty(),
    }
}

pub open spec fn icon_diags(id: Seq<char>, s: SemanticElement, t: SemanticElement) -> Seq<DiagView> {
    match (s.icon, t.icon) {
        (Some(si), Some(ti)) => when(
            si.paths.deep_view() != ti.paths.deep_view() && si.paths.len() > 0 && ti.paths.len() > 0,
            (
                Severity::Warning,
                "WRONG_ICON: "@ + id + " — pathData differs ("@ + si.name@ + " vs "@ + ti.name@
                    + ")"@,
            ),
        ),
        _ => Seq::empty(),
    }
}

pub open spec fn line_diags(id: Seq<char>, sp: Seq<char>, tp: Seq<char>, s: SemanticElement, t: SemanticElement) -> Seq<DiagView> {
    match (s.line_count, t.line_count) {
        (Some(a), Some(b)) => when(
            a != b,
            (
                Severity::Warning,
                "WRONG_LINE_COUNT: "@ + id + " — "@ + sp + ":"@ + nat_str(a as nat) + " "@ + tp + ":"@
                    + nat_str(b as nat),
            ),
        ),
        _ => Seq::empty(),
    }
}

pub open spec fn truncated_diags(id: Seq<char>, sp: Seq<char>, tp: Seq<char>, s: SemanticElement, t: SemanticElement) -> Seq<DiagView> {
    match (s.truncated, t.truncated) {
        (Some(a), Some(b)) => when(
            a != b,
            (
                Severity::Warning,
                "WRONG_TRUNCATED: "@ + id + " — "@ + sp + ":"@ + bool_str(a) + " "@ + tp + ":"@
                    + bool_str(b),
            ),
        ),
        _ => Seq::empty(),
    }
}

pub open spec fn gradient_diags(id: Seq<char>, sp: Seq<char>, tp: Seq<char>, s: SemanticElement, t: SemanticElement) -> Seq<DiagView> {
    match (s.gradient, t.gradient) {
        (Some(sg), Some(tg)) => when(
            sg.gradient_type@ != tg.gradient_type@,
            (
                Severity::Warning,
                "WRONG_GRADIENT_TYPE: "@ + id + " — "@ + sp + ":"@ + sg.gradient_type@ + " "@ + tp
                    + ":"@ + tg.gradient_type@,
            ),
        ) + when(
            sg.colors.deep_view() != tg.colors.deep_view(),
            (
                Severity::Warning,
                "WRONG_GRADIENT_COLORS: "@ + id + " — "@ + sp + ":"@ + debug_list(
                    sg.colors.deep_view(),
                ) + " "@ + tp + ":"@ + debug_list(tg.colors.deep_view()),
            ),
        ),
        _ => Seq::empty(),
    }
}

pub open spec fn border_diags(
    id: Seq<char>,
    sp: Seq<char>,
    tp: Seq<char>,
    s: SemanticElement,
    t: SemanticElement,
    tol: Option<Tolerances>,
    table: Seq<ColorDistance>,
) -> Seq<DiagView> {
    match (s.border, t.border) {
        (Some(sb), Some(tb)) => {
            let diff = abs(sb.width - tb.width);
            let within = match tol {
                None => diff <= 500_000,
                Some(t) => diff <= t.border_width_px,
            };
            when(
                diff > 100_000,
                (
                    verdict(within),
                    "WRONG_BORDER_WIDTH: "@ + id + " — "@ + sp + ":"@ + micro_str(sb.width as int)
                        + "dp "@ + tp + ":"@ + micro_str(tb.width as int) + "dp (Δ"@ + tenths_str(
                        diff,
                        1_000_000,
                    ) + "dp"@ + suffix(within) + ")"@,
                ),
            ) + color_pair_diags("WRONG_BORDER_COLOR"@, id, sp, tp, sb.color, tb.color, tol, table)
        },
        _ => Seq::empty(),
    }
}

pub open spec fn radius_diags(
    id: Seq<char>,
    sp: Seq<char>,
    tp: Seq<char>,
    s: SemanticElement,
    t: SemanticElement,
    tol: Option<Tolerances>,
) -> Seq<DiagView> {
    match (s.corner_radius, t.corner_radius) {
        (Some(a), Some(b)) => {
            let diff = abs(a - b);
            let within = match tol {
                None => diff <= 1_000_000,
                Some(t) => diff <= t.corner_radius_px,
            };
            when(
                diff > 100_000,
                (
                    verdict(within),
                    "WRONG_RADIUS: "@ + id + " — "@ + sp + ":"@ + micro_str(a as int) + "dp "@ + tp
                        + ":"@ + micro_str(b as int) + "dp (Δ"@ + tenths_str(diff, 1_000_000)
                        + "dp"@ + suffix(within) + ")"@,
                ),
            )
        },
        _ => Seq::empty(),
    }
}

/// `num / den` as the report prints a percentage: one decimal, or `inf`,
/// `-inf` or `NaN` when the denominator is zero.
pub open spec fn ratio_str(num: int, den: int) -> Seq<char> {
    if den == 0 {
        if num > 0 {
            "inf"@
        } else if num < 0 {
            "-inf"@
        } else {
            "NaN"@
        }
    } else {
        tenths_str(num, den)
    }
}

/// `drift / width * 100 <= limit / 1_000_000`, with the outcome of the
/// floating-point comparison when the width is zero (never true).
pub open spec fn pct_le(drift: int, width: int, limit: int) -> bool {
    if width > 0 {
        drift * 100 * 1_000_000 <= limit * width
    } else if width < 0 {
        drift * 100 * 1_000_000 >= limit * width
    } else {
        false
    }
}

/// The position and size drift of a matched pair (none for a root
/// container): a spacing drift over 2dp and a size drift over 2dp (but no
/// more than the element's larger side) are reported. Without tolerances
/// each is information; with tolerances it is information when within the
/// spatial tolerance, else a warning.
pub open spec fn bounds_diags(
    id: Seq<char>,
    sp: Seq<char>,
    tp: Seq<char>,
    s: SemanticElement,
    t: SemanticElement,
    tol: Option<Tolerances>,
    vw: int,
) -> Seq<DiagView> {
    if root_container(s.id@) || root_container(t.id@) {
        Seq::empty()
    } else {
        let sb = s.bounds;
        let tb = t.bounds;
        let pos = max(abs(sb.x - tb.x), abs(sb.y - tb.y));
        let within_pos = match tol {
            None => true,
            Some(t) => pct_le(pos, vw, t.spatial_pct as int),
        };
        let spacing = when(
            pos > 2 && pct_le(pos, vw, 200_000_000),
            (
                verdict(within_pos),
                "SPACING: "@ + id + " — "@ + sp + ":("@ + int_str(sb.x as int) + ","@ + int_str(
                    sb.y as int,
                ) + ") "@ + tp + ":("@ + int_str(tb.x as int) + ","@ + int_str(tb.y as int) + ") ("@
                    + int_str(pos) + "dp="@ + ratio_str(pos * 100, vw) + "%vw"@ + suffix(within_pos)
                    + ")"@,
            ),
        );
        let size = max(abs(sb.w - tb.w), abs(sb.h - tb.h));
        let ref_dim = max(max(sb.w as int, sb.h as int), 1);
        let within_size = match tol {
            None => true,
            Some(t) => pct_le(size, vw, t.spatial_pct as int),
        };
        let sizing = when(
            size > 2 && size <= ref_dim,
            (
                verdict(within_size),
                "SIZE: "@ + id + " — "@ + sp + ":"@ + int_str(sb.w as int) + "x"@ + int_str(
                    sb.h as int,
                ) + " "@ + tp + ":"@ + int_str(tb.w as int) + "x"@ + int_str(tb.h as int) + " ("@
                    + int_str(size) + "dp="@ + ratio_str(size * 100, vw) + "%vw"@ + suffix(
                    within_size,
                ) + ")"@,
            ),
        );
        spacing + sizing
    }
}

/// Every difference reported for one matched pair, in report order.
pub open spec fn pair_diags(
    sp: Seq<char>,
    tp: Seq<char>,
    s: SemanticElement,
    t: SemanticElement,
    tol: Option<Tolerances>,
    table: Seq<ColorDistance>,
    vw: int,
) -> Seq<DiagView> {
    pair_diags_head(sp, tp, s, t, tol, table) + pair_diags_tail(sp, tp, s, t, tol, table, vw)
}

pub open spec fn pair_diags_head(
    sp: Seq<char>,
    tp: Seq<char>,
    s: SemanticElement,
    t: SemanticElement,
    tol: Option<Tolerances>,
    table: Seq<ColorDistance>,
) -> Seq<DiagView> {
    let id = match_label(s);
    text_diags(id, sp, tp, s, t) + type_diags(id, sp, tp, s, t) + color_pair_diags(
        "WRONG_COLOR"@,
        id,
        sp,
        tp,
        text_color(s),
        text_color(t),
        tol,
        table,
    ) + font_diags(id, sp, tp, s, t, tol) + color_pair_diags(
        "WRONG_BACKGROUND"@,
        id,
        sp,
        tp,
        s.background,
        t.background,
        tol,
        table,
    ) + icon_diags(id, s, t)
}

pub open spec fn pair_diags_tail(
    sp: Seq<char>,
    tp: Seq<char>,
    s: SemanticElement,
    t: SemanticElement,
    tol: Option<Tolerances>,
    table: Seq<ColorDistance>,
    vw: int,
) -> Seq<DiagView> {
    let id = match_label(s);
    line_diags(id, sp, tp, s, t) + truncated_diags(id, sp, tp, s, t) + gradient_diags(id, sp, tp, s, t)
        + border_diags(id, sp, tp, s, t, tol, table) + radius_diags(id, sp, tp, s, t, tol)
        + bounds_diags(id, sp, tp, s, t, tol, vw)
}

// ---------------------------------------------------------------------------
// Executable checks
// ---------------------------------------------------------------------------

fn one(severity: Severity, m: &Vec<char>) -> (r: Vec<Diagnostic>)
    ensures
        diags_view(r@) == seq![(severity, m@)],
{
    let mut v: Vec<Diagnostic> = Vec::new();
    v.push(Diagnostic { severity, message: string_of(m) });
    assert(diags_view(v@) =~= seq![(severity, m@)]);
    v
}

fn none() -> (r: Vec<Diagnostic>)
    ensures
        diags_view(r@) == Seq::<DiagView>::empty(),
{
    let v: Vec<Diagnostic> = Vec::new();
    assert(diags_view(v@) =~= Seq::<DiagView>::empty());
    v
}

fn concat(a: Vec<Diagnostic>, b: Vec<Diagnostic>) -> (r: Vec<Diagnostic>)
    ensures
        diags_view(r@) == diags_view(a@) + diags_view(b@),
{
    let mut a = a;
    let mut b = b;
    let ghost va = a@;
    let ghost vb = b@;
    a.append(&mut b);
    assert(diags_view(a@) =~= diags_view(va) + diags_view(vb));
    a
}

fn verdict_of(within: bool) -> (r: Severity)
    ensures
        r == verdict(within),
{
    if within {
        Severity::Info
    } else {
        Severity::Warning
    }
}

fn push_suffix(m: &mut Vec<char>, within: bool)
    ensures
        final(m)@ == old(m)@ + suffix(within),
{
    if within {
        append_str(m, " within tolerance");
    } else {
        append_str(m, " VIOLATION");
    }
}

fn match_label_of(s: &SemanticElement) -> (r: Vec<char>)
    ensures
        r@ == match_label(*s),
{
    if !s.id.as_str().is_empty() {
        chars_of(s.id.as_str())
    } else {
        match &s.content {
            Some(c) => chars_of(c.as_str()),
            None => chars_of("(unnamed)"),
        }
    }
}

fn decoded_content_of(e: &SemanticElement) -> (r: Option<Vec<char>>)
    ensures
        match r {
            Some(v) => decoded_content(*e) == Some(v@),
            None => decoded_content(*e) is None,
        },
{
    match &e.content {
        Some(c) => {
            let v = chars_of(c.as_str());
            Some(decode_chars(&v))
        },
        None => None,
    }
}

fn push_or_none(m: &mut Vec<char>, c: &Option<Vec<char>>)
    ensures
        final(m)@ == old(m)@ + or_none(
            match c {
                Some(v) => Some(v@),
                None => None,
            },
        ),
{
    match c {
        Some(v) => append_chars(m, v),
        None => append_str(m, "(none)"),
    }
}

fn check_text(id: &Vec<char>, sp: &Vec<char>, tp: &Vec<char>, s: &SemanticElement, t: &SemanticElement) -> (r: Vec<Diagnostic>)
    ensures
        diags_view(r@) == text_diags(id@, sp@, tp@, *s, *t),
{
    let sc = decoded_content_of(s);
    let tc = decoded_content_of(t);
    let same = match (&sc, &tc) {
        (Some(a), Some(b)) => chars_eq(a, b),
        (None, None) => true,
        _ => false,
    };
    if same {
        return none();
    }
    let mut m: Vec<char> = Vec::new();
    append_str(&mut m, "WRONG_TEXT: ");
    append_chars(&mut m, id);
    append_str(&mut m, " — ");
    append_chars(&mut m, sp);
    append_str(&mut m, ":\"");
    push_or_none(&mut m, &sc);
    append_str(&mut m, "\" ");
    append_chars(&mut m, tp);
    append_str(&mut m, ":\"");
    push_or_none(&mut m, &tc);
    append_str(&mut m, "\"");
    let ghost sv = decoded_content(*s);
    let ghost tv = decoded_content(*t);
    assert(m@ =~= "WRONG_TEXT: "@ + id@ + " — "@ + sp@ + ":\""@ + or_none(sv) + "\" "@ + tp@ + ":\""@
        + or_none(tv) + "\""@);
    one(Severity::Error, &m)
}

fn check_type(id: &Vec<char>, sp: &Vec<char>, tp: &Vec<char>, s: &SemanticElement, t: &SemanticElement) -> (r: Vec<Diagnostic>)
    ensures
        diags_view(r@) == type_diags(id@, sp@, tp@, *s, *t),
{
    if str_eq(s.elem_type.as_str(), t.elem_type.as_str()) {
        return none();
    }
    let mut m: Vec<char> = Vec::new();
    append_str(&mut m, "WRONG_TYPE: ");
    append_chars(&mut m, id);
    append_str(&mut m, " — ");
    append_chars(&mut m, sp);
    append_str(&mut m, ":");
    append_str(&mut m, s.elem_type.as_str());
    append_str(&mut m, " ");
    append_chars(&mut m, tp);
    append_str(&mut m, ":");
    append_str(&mut m, t.elem_type.as_str());
    assert(m@ =~= "WRONG_TYPE: "@ + id@ + " — "@ + sp@ + ":"@ + s.elem_type@ + " "@ + tp@ + ":"@
        + t.elem_type@);
    one(Severity::Warning, &m)
}

pub open spec fn opt_color_ok(c: Option<String>) -> bool {
    match c {
        Some(x) => color_sliceable(x@),
        None => true,
    }
}

fn check_color_pair(
    tag: &str,
    id: &Vec<char>,
    sp: &Vec<char>,
    tp: &Vec<char>,
    a: &Option<String>,
    b: &Option<String>,
    tol: &Option<Tolerances>,
    table: &Vec<ColorDistance>,
) -> (r: Vec<Diagnostic>)
    requires
        (a is Some && b is Some) ==> opt_color_ok(*a) && opt_color_ok(*b),
    ensures
        diags_view(r@) == color_pair_diags(tag@, id@, sp@, tp@, *a, *b, *tol, table@),
{
    let (x, y) = match (a, b) {
        (Some(x), Some(y)) => (x, y),
        _ => {
            return none();
        },
    };
    if colors_equal(x.as_str(), y.as_str()) {
        return none();
    }
    let de = find_delta(table, x.as_str(), y.as_str());
    let within = match (tol, de) {
        (Some(t), Some(d)) => d <= t.color_delta_e,
        _ => false,
    };
    let mut m: Vec<char> = Vec::new();
    append_str(&mut m, tag);
    append_str(&mut m, ": ");
    append_chars(&mut m, id);
    append_str(&mut m, " — ");
    append_chars(&mut m, sp);
    append_str(&mut m, ":");
    append_str(&mut m, x.as_str());
    append_str(&mut m, " ");
    append_chars(&mut m, tp);
    append_str(&mut m, ":");
    append_str(&mut m, y.as_str());
    append_str(&mut m, " (ΔE=");
    match de {
        Some(d) => {
            let dt = fmt_tenths(d as i128, 1_000_000);
            append_chars(&mut m, &dt);
        },
        None => append_str(&mut m, "?"),
    }
    push_suffix(&mut m, within);
    append_str(&mut m, ")");
    let ghost spec_de = delta_lookup(table@, x@, y@);
    let ghost de_text = match spec_de {
        Some(d) => tenths_str(d, 1_000_000),
        None => "?"@,
    };
    assert(m@ =~= tag@ + ": "@ + id@ + " — "@ + sp@ + ":"@ + x@ + " "@ + tp@ + ":"@ + y@ + " (ΔE="@
        + de_text + suffix(within) + ")"@);
    one(verdict_of(within), &m)
}

fn text_color_of(e: &SemanticElement) -> (r: &Option<String>)
    ensures
        *r == text_color(*e),
{
    match &e.foreground {
        Some(_) => &e.foreground,
        None => &e.color,
    }
}

fn abs_micro_diff(a: i64, b: i64) -> (r: i128)
    ensures
        r == abs(a - b),
{
    let d = a as i128 - b as i128;
    if d < 0 {
        -d
    } else {
        d
    }
}

fn check_font(
    id: &Vec<char>,
    sp: &Vec<char>,
    tp: &Vec<char>,
    s: &SemanticElement,
    t: &SemanticElement,
    tol: &Option<Tolerances>,
) -> (r: Vec<Diagnostic>)
    ensures
        diags_view(r@) == font_diags(id@, sp@, tp@, *s, *t, *tol),
{
    let (sf, tf) = match (&s.font, &t.font) {
        (Some(sf), Some(tf)) => (sf, tf),
        _ => {
            return none();
        },
    };
    let family = if !sf.family.as_str().is_empty() && !tf.family.as_str().is_empty() {
        let sl = to_lowercase(sf.family.as_str());
        let tl = to_lowercase(tf.family.as_str());
        if !str_eq(sl.as_str(), tl.as_str()) {
            let mut m: Vec<char> = Vec::new();
            append_str(&mut m, "DIFF_FONT_FAMILY: ");
            append_chars(&mut m, id);
            append_str(&mut m, " — ");
            append_chars(&mut m, sp);
            append_str(&mut m, ":");
            append_str(&mut m, sf.family.as_str());
            append_str(&mut m, " ");
            append_chars(&mut m, tp);
            append_str(&mut m, ":");
            append_str(&mut m, tf.family.as_str());
            assert(m@ =~= "DIFF_FONT_FAMILY: "@ + id@ + " — "@ + sp@ + ":"@ + sf.family@ + " "@ + tp@
                + ":"@ + tf.family@);
            one(Severity::Info, &m)
        } else {
            none()
        }
    } else {
        none()
    };
    let weight = if !sf.weight.as_str().is_empty() && !tf.weight.as_str().is_empty() && !str_eq(
        sf.weight.as_str(),
        tf.weight.as_str(),
    ) {
        let mut m: Vec<char> = Vec::new();
        append_str(&mut m, "WRONG_FONT_WEIGHT: ");
        append_chars(&mut m, id);
        append_str(&mut m, " — ");
        append_chars(&mut m, sp);
        append_str(&mut m, ":");
        append_str(&mut m, sf.weight.as_str());
        append_str(&mut m, " ");
        append_chars(&mut m, tp);
        append_str(&mut m, ":");
        append_str(&mut m, tf.weight.as_str());
        append_str(&mut m, " VIOLATION");
        assert(m@ =~= "WRONG_FONT_WEIGHT: "@ + id@ + " — "@ + sp@ + ":"@ + sf.weight@ + " "@ + tp@
            + ":"@ + tf.weight@ + " VIOLATION"@);
        one(Severity::Warning, &m)
    } else {
        none()
    };
    let a = sf.size;
    let b = tf.size;
    let size = if a > 0 && b > 0 {
        let diff = abs_micro_diff(a, b);
        let mx: i128 = if a < b { b as i128 } else { a as i128 };
        let within = match tol {
            None => diff <= 1_000_000,
            Some(tt) => {
                proof {
                    lemma_mul_bound(tt.text_size_pct as int, mx as int);
                }
                diff * 100 * 1_000_000 <= (tt.text_size_pct as i128) * mx
            },
        };
        if diff > 500_000 {
            let mut m: Vec<char> = Vec::new();
            append_str(&mut m, "WRONG_FONT_SIZE: ");
            append_chars(&mut m, id);
            append_str(&mut m, " — ");
            append_chars(&mut m, sp);
            append_str(&mut m, ":");
            let av = fmt_micro(a);
            append_chars(&mut m, &av);
            append_str(&mut m, "sp ");
            append_chars(&mut m, tp);
            append_str(&mut m, ":");
            let bv = fmt_micro(b);
            append_chars(&mut m, &bv);
            append_str(&mut m, "sp (");
            let pv = fmt_tenths(diff * 100, mx);
            append_chars(&mut m, &pv);
            append_str(&mut m, "%");
            push_suffix(&mut m, within);
            append_str(&mut m, ")");
            assert(m@ =~= "WRONG_FONT_SIZE: "@ + id@ + " — "@ + sp@ + ":"@ + micro_str(a as int)
                + "sp "@ + tp@ + ":"@ + micro_str(b as int) + "sp ("@ + tenths_str(
                (diff * 100) as int,
                mx as int,
            ) + "%"@ + suffix(within) + ")"@);
            one(verdict_of(within), &m)
        } else {
            none()
        }
    } else {
        none()
    };
    concat(concat(family, weight), size)
}

fn strings_equal(a: &Vec<String>, b: &Vec<String>) -> (r: bool)
    ensures
        r == (a.deep_view() == b.deep_view()),
{
    if a.len() != b.len() {
        assert(a.deep_view().len() != b.deep_view().len());
        return false;
    }
    let mut i: usize = 0;
    while i < a.len()
        invariant
            i <= a.len(),
            a.len() == b.len(),
            forall|k: int| 0 <= k < i ==> a.deep_view()[k] == b.deep_view()[k],
        decreases a.len() - i,
    {
        if !str_eq(a[i].as_str(), b[i].as_str()) {
            assert(a.deep_view()[i as int] != b.deep_view()[i as int]);
            return false;
        }
        i = i + 1;
    }
    assert(a.deep_view() =~= b.deep_view());
    true
}

fn check_icon(id: &Vec<char>, s: &SemanticElement, t: &SemanticElement) -> (r: Vec<Diagnostic>)
    ensures
        diags_view(r@) == icon_diags(id@, *s, *t),
{
    let (si, ti) = match (&s.icon, &t.icon) {
        (Some(si), Some(ti)) => (si, ti),
        _ => {
            return none();
        },
    };
    if !strings_equal(&si.paths, &ti.paths) && si.paths.len() > 0 && ti.paths.len() > 0 {
        let mut m: Vec<char> = Vec::new();
        append_str(&mut m, "WRONG_ICON: ");
        append_chars(&mut m, id);
        append_str(&mut m, " — pathData differs (");
        append_str(&mut m, si.name.as_str());
        append_str(&mut m, " vs ");
        append_str(&mut m, ti.name.as_str());
        append_str(&mut m, ")");
        assert(m@ =~= "WRONG_ICON: "@ + id@ + " — pathData differs ("@ + si.name@ + " vs "@ + ti.name@
            + ")"@);
        one(Severity::Warning, &m)
    } else {
        none()
    }
}

fn check_lines(id: &Vec<char>, sp: &Vec<char>, tp: &Vec<char>, s: &SemanticElement, t: &SemanticElement) -> (r: Vec<Diagnostic>)
    ensures
        diags_view(r@) == line_diags(id@, sp@, tp@, *s, *t),
{
    match (s.line_count, t.line_count) {
        (Some(a), Some(b)) => {
            if a != b {
                let mut m: Vec<char> = Vec::new();
                append_str(&mut m, "WRONG_LINE_COUNT: ");
                append_chars(&mut m, id);
                append_str(&mut m, " — ");
                append_chars(&mut m, sp);
                append_str(&mut m, ":");
                let av = fmt_nat(a as u128);
                append_chars(&mut m, &av);
                append_str(&mut m, " ");
                append_chars(&mut m, tp);
                append_str(&mut m, ":");
                let bv = fmt_nat(b as u128);
                append_chars(&mut m, &bv);
                assert(m@ =~= "WRONG_LINE_COUNT: "@ + id@ + " — "@ + sp@ + ":"@ + nat_str(a as nat) + " "@
                    + tp@ + ":"@ + nat_str(b as nat));
                one(Severity::Warning, &m)
            } else {
                none()
            }
        },
        _ => none(),
    }
}

fn push_bool(m: &mut Vec<char>, b: bool)
    ensures
        final(m)@ == old(m)@ + bool_str(b),
{
    if b {
        append_str(m, "true");
    } else {
        append_str(m, "false");
    }
}

fn check_truncated(id: &Vec<char>, sp: &Vec<char>, tp: &Vec<char>, s: &SemanticElement, t: &SemanticElement) -> (r: Vec<Diagnostic>)
    ensures
        diags_view(r@) == truncated_diags(id@, sp@, tp@, *s, *t),
{
    match (s.truncated, t.truncated) {
        (Some(a), Some(b)) => {
            if a != b {
                let mut m: Vec<char> = Vec::new();
                append_str(&mut m, "WRONG_TRUNCATED: ");
                append_chars(&mut m, id);
                append_str(&mut m, " — ");
                append_chars(&mut m, sp);
                append_str(&mut m, ":");
                push_bool(&mut m, a);
                append_str(&mut m, " ");
                append_chars(&mut m, tp);
                append_str(&mut m, ":");
                push_bool(&mut m, b);
                assert(m@ =~= "WRONG_TRUNCATED: "@ + id@ + " — "@ + sp@ + ":"@ + bool_str(a) + " "@ + tp@
                    + ":"@ + bool_str(b));
                one(Severity::Warning, &m)
            } else {
                none()
            }
        },
        _ => none(),
    }
}

fn check_gradient(id: &Vec<char>, sp: &Vec<char>, tp: &Vec<char>, s: &SemanticElement, t: &SemanticElement) -> (r: Vec<Diagnostic>)
    ensures
        diags_view(r@) == gradient_diags(id@, sp@, tp@, *s, *t),
{
    let (sg, tg) = match (&s.gradient, &t.gradient) {
        (Some(sg), Some(tg)) => (sg, tg),
        _ => {
            return none();
        },
    };
    let first = if !str_eq(sg.gradient_type.as_str(), tg.gradient_type.as_str()) {
        let mut m: Vec<char> = Vec::new();
        append_str(&mut m, "WRONG_GRADIENT_TYPE: ");
        append_chars(&mut m, id);
        append_str(&mut m, " — ");
        append_chars(&mut m, sp);
        append_str(&mut m, ":");
        append_str(&mut m, sg.gradient_type.as_str());
        append_str(&mut m, " ");
        append_chars(&mut m, tp);
        append_str(&mut m, ":");
        append_str(&mut m, tg.gradient_type.as_str());
        assert(m@ =~= "WRONG_GRADIENT_TYPE: "@ + id@ + " — "@ + sp@ + ":"@ + sg.gradient_type@ + " "@
            + tp@ + ":"@ + tg.gradient_type@);
        one(Severity::Warning, &m)
    } else {
        none()
    };
    let second = if !strings_equal(&sg.colors, &tg.colors) {
        let mut m: Vec<char> = Vec::new();
        append_str(&mut m, "WRONG_GRADIENT_COLORS: ");
        append_chars(&mut m, id);
        append_str(&mut m, " — ");
        append_chars(&mut m, sp);
        append_str(&mut m, ":");
        let sd = debug_strings(&sg.colors);
        append_str(&mut m, sd.as_str());
        append_str(&mut m, " ");
        append_chars(&mut m, tp);
        append_str(&mut m, ":");
        let td = debug_strings(&tg.colors);
        append_str(&mut m, td.as_str());
        assert(m@ =~= "WRONG_GRADIENT_COLORS: "@ + id@ + " — "@ + sp@ + ":"@ + debug_list(
            sg.colors.deep_view(),
        ) + " "@ + tp@ + ":"@ + debug_list(tg.colors.deep_view()));
        one(Severity::Warning, &m)
    } else {
        none()
    };
    concat(first, second)
}

fn check_border(
    id: &Vec<char>,
    sp: &Vec<char>,
    tp: &Vec<char>,
    s: &SemanticElement,
    t: &SemanticElement,
    tol: &Option<Tolerances>,
    table: &Vec<ColorDistance>,
) -> (r: Vec<Diagnostic>)
    requires
        border_colors_ok(*s, *t),
    ensures
        diags_view(r@) == border_diags(id@, sp@, tp@, *s, *t, *tol, table@),
{
    let (sb, tb) = match (&s.border, &t.border) {
        (Some(sb), Some(tb)) => (sb, tb),
        _ => {
            return none();
        },
    };
    let diff = abs_micro_diff(sb.width, tb.width);
    let within = match tol {
        None => diff <= 500_000,
        Some(tt) => diff <= tt.border_width_px as i128,
    };
    let width = if diff > 100_000 {
        let mut m: Vec<char> = Vec::new();
        append_str(&mut m, "WRONG_BORDER_WIDTH: ");
        append_chars(&mut m, id);
        append_str(&mut m, " — ");
        append_chars(&mut m, sp);
        append_str(&mut m, ":");
        let av = fmt_micro(sb.width);
        append_chars(&mut m, &av);
        append_str(&mut m, "dp ");
        append_chars(&mut m, tp);
        append_str(&mut m, ":");
        let bv = fmt_micro(tb.width);
        append_chars(&mut m, &bv);
        append_str(&mut m, "dp (Δ");
        let dv = fmt_tenths(diff, 1_000_000);
        append_chars(&mut m, &dv);
        append_str(&mut m, "dp");
        push_suffix(&mut m, within);
        append_str(&mut m, ")");
        assert(m@ =~= "WRONG_BORDER_WIDTH: "@ + id@ + " — "@ + sp@ + ":"@ + micro_str(sb.width as int)
            + "dp "@ + tp@ + ":"@ + micro_str(tb.width as int) + "dp (Δ"@ + tenths_str(
            diff as int,
            1_000_000,
        ) + "dp"@ + suffix(within) + ")"@);
        one(verdict_of(within), &m)
    } else {
        none()
    };
    let colors = check_color_pair("WRONG_BORDER_COLOR", id, sp, tp, &sb.color, &tb.color, tol, table);
    concat(width, colors)
}

fn check_radius(
    id: &Vec<char>,
    sp: &Vec<char>,
    tp: &Vec<char>,
    s: &SemanticElement,
    t: &SemanticElement,
    tol: &Option<Tolerances>,
) -> (r: Vec<Diagnostic>)
    ensures
        diags_view(r@) == radius_diags(id@, sp@, tp@, *s, *t, *tol),
{
    match (s.corner_radius, t.corner_radius) {
        (Some(a), Some(b)) => {
            let diff = abs_micro_diff(a, b);
            let within = match tol {
                None => diff <= 1_000_000,
                Some(tt) => diff <= tt.corner_radius_px as i128,
            };
            if diff > 100_000 {
                let mut m: Vec<char> = Vec::new();
                append_str(&mut m, "WRONG_RADIUS: ");
                append_chars(&mut m, id);
                append_str(&mut m, " — ");
                append_chars(&mut m, sp);
                append_str(&mut m, ":");
                let av = fmt_micro(a);
                append_chars(&mut m, &av);
                append_str(&mut m, "dp ");
                append_chars(&mut m, tp);
                append_str(&mut m, ":");
                let bv = fmt_micro(b);
                append_chars(&mut m, &bv);
                append_str(&mut m, "dp (Δ");
                let dv = fmt_tenths(diff, 1_000_000);
                append_chars(&mut m, &dv);
                append_str(&mut m, "dp");
                push_suffix(&mut m, within);
                append_str(&mut m, ")");
                assert(m@ =~= "WRONG_RADIUS: "@ + id@ + " — "@ + sp@ + ":"@ + micro_str(a as int) + "dp "@
                    + tp@ + ":"@ + micro_str(b as int) + "dp (Δ"@ + tenths_str(diff as int, 1_000_000)
                    + "dp"@ + suffix(within) + ")"@);
                one(verdict_of(within), &m)
            } else {
                none()
            }
        },
        _ => none(),
    }
}

fn fmt_ratio(num: i128, den: i128) -> (r: Vec<char>)
    requires
        -0x1_0000_0000_0000_0000 < num < 0x1_0000_0000_0000_0000,
        -0x1_0000_0000_0000_0000 < den < 0x1_0000_0000_0000_0000,
    ensures
        r@ == ratio_str(num as int, den as int),
{
    if den == 0 {
        if num > 0 {
            chars_of("inf")
        } else if num < 0 {
            chars_of("-inf")
        } else {
            chars_of("NaN")
        }
    } else {
        fmt_tenths(num, den)
    }
}

proof fn lemma_mul_bound(a: int, b: int)
    requires
        -0x8000_0000_0000_0000 <= a <= 0x8000_0000_0000_0000,
        -0x8000_0000_0000_0000 <= b <= 0x8000_0000_0000_0000,
    ensures
        -0x4000_0000_0000_0000_0000_0000_0000_0000 <= a * b <= 0x4000_0000_0000_0000_0000_0000_0000_0000,
{
    assert(-0x4000_0000_0000_0000_0000_0000_0000_0000 <= a * b <= 0x4000_0000_0000_0000_0000_0000_0000_0000) by (nonlinear_arith)
        requires
            -0x8000_0000_0000_0000 <= a <= 0x8000_0000_0000_0000,
            -0x8000_0000_0000_0000 <= b <= 0x8000_0000_0000_0000,
    ;
}

fn pct_le_exec(drift: i64, width: i64, limit: i64) -> (r: bool)
    requires
        0 <= drift < 0x1_0000_0000_0000,
        -0x1_0000_0000 < width < 0x1_0000_0000,
    ensures
        r == pct_le(drift as int, width as int, limit as int),
{
    let lhs: i128 = (drift as i128) * 100 * 1_000_000;
    proof {
        lemma_mul_bound(limit as int, width as int);
    }
    let rhs: i128 = (limit as i128) * (width as i128);
    if width > 0 {
        lhs <= rhs
    } else if width < 0 {
        lhs >= rhs
    } else {
        false
    }
}

fn check_bounds(
    id: &Vec<char>,
    sp: &Vec<char>,
    tp: &Vec<char>,
    s: &SemanticElement,
    t: &SemanticElement,
    tol: &Option<Tolerances>,
    vw: i32,
) -> (r: Vec<Diagnostic>)
    ensures
        diags_view(r@) == bounds_diags(id@, sp@, tp@, *s, *t, *tol, vw as int),
{
    if is_root_container(s.id.as_str()) || is_root_container(t.id.as_str()) {
        return none();
    }
    let sb = s.bounds;
    let tb = t.bounds;
    let dx = crate::matching::abs_diff_i32(sb.x, tb.x);
    let dy = crate::matching::abs_diff_i32(sb.y, tb.y);
    let dw = crate::matching::abs_diff_i32(sb.w, tb.w);
    let dh = crate::matching::abs_diff_i32(sb.h, tb.h);
    let pos: i64 = if dx < dy { dy } else { dx };
    let within_pos = match tol {
        None => true,
        Some(tt) => pct_le_exec(pos, vw as i64, tt.spatial_pct),
    };
    let spacing = if pos > 2 && pct_le_exec(pos, vw as i64, 200_000_000) {
        let mut m: Vec<char> = Vec::new();
        append_str(&mut m, "SPACING: ");
        append_chars(&mut m, id);
        append_str(&mut m, " — ");
        append_chars(&mut m, sp);
        append_str(&mut m, ":(");
        let v1 = fmt_int(sb.x as i64);
        append_chars(&mut m, &v1);
        append_str(&mut m, ",");
        let v2 = fmt_int(sb.y as i64);
        append_chars(&mut m, &v2);
        append_str(&mut m, ") ");
        append_chars(&mut m, tp);
        append_str(&mut m, ":(");
        let v3 = fmt_int(tb.x as i64);
        append_chars(&mut m, &v3);
        append_str(&mut m, ",");
        let v4 = fmt_int(tb.y as i64);
        append_chars(&mut m, &v4);
        append_str(&mut m, ") (");
        let v5 = fmt_int(pos);
        append_chars(&mut m, &v5);
        append_str(&mut m, "dp=");
        let v6 = fmt_ratio((pos as i128) * 100, vw as i128);
        append_chars(&mut m, &v6);
        append_str(&mut m, "%vw");
        push_suffix(&mut m, within_pos);
        append_str(&mut m, ")");
        assert(m@ =~= "SPACING: "@ + id@ + " — "@ + sp@ + ":("@ + int_str(sb.x as int) + ","@ + int_str(
            sb.y as int,
        ) + ") "@ + tp@ + ":("@ + int_str(tb.x as int) + ","@ + int_str(tb.y as int) + ") ("@
            + int_str(pos as int) + "dp="@ + ratio_str((pos * 100) as int, vw as int) + "%vw"@ + suffix(
            within_pos,
        ) + ")"@);
        one(verdict_of(within_pos), &m)
    } else {
        none()
    };
    let size: i64 = if dw < dh { dh } else { dw };
    let big: i64 = if sb.w < sb.h { sb.h as i64 } else { sb.w as i64 };
    let ref_dim: i64 = if big < 1 { 1 } else { big };
    let within_size = match tol {
        None => true,
        Some(tt) => pct_le_exec(size, vw as i64, tt.spatial_pct),
    };
    let sizing = if size > 2 && size <= ref_dim {
        let mut m: Vec<char> = Vec::new();
        append_str(&mut m, "SIZE: ");
        append_chars(&mut m, id);
        append_str(&mut m, " — ");
        append_chars(&mut m, sp);
        append_str(&mut m, ":");
        let v1 = fmt_int(sb.w as i64);
        append_chars(&mut m, &v1);
        append_str(&mut m, "x");
        let v2 = fmt_int(sb.h as i64);
        append_chars(&mut m, &v2);
        append_str(&mut m, " ");
        append_chars(&mut m, tp);
        append_str(&mut m, ":");
        let v3 = fmt_int(tb.w as i64);
        append_chars(&mut m, &v3);
        append_str(&mut m, "x");
        let v4 = fmt_int(tb.h as i64);
        append_chars(&mut m, &v4);
        append_str(&mut m, " (");
        let v5 = fmt_int(size);
        append_chars(&mut m, &v5);
        append_str(&mut m, "dp=");
        let v6 = fmt_ratio((size as i128) * 100, vw as i128);
        append_chars(&mut m, &v6);
        append_str(&mut m, "%vw");
        push_suffix(&mut m, within_size);
        append_str(&mut m, ")");
        assert(m@ =~= "SIZE: "@ + id@ + " — "@ + sp@ + ":"@ + int_str(sb.w as int) + "x"@ + int_str(
            sb.h as int,
        ) + " "@ + tp@ + ":"@ + int_str(tb.w as int) + "x"@ + int_str(tb.h as int) + " ("@ + int_str(
            size as int,
        ) + "dp="@ + ratio_str((size * 100) as int, vw as int) + "%vw"@ + suffix(within_size) + ")"@);
        one(verdict_of(within_size), &m)
    } else {
        none()
    };
    concat(spacing, sizing)
}

/// The colours of a matched pair can all be normalised.
pub open spec fn pair_colors_ok(s: SemanticElement, t: SemanticElement) -> bool {
    &&& (text_color(s) is Some && text_color(t) is Some) ==> opt_color_ok(text_color(s))
        && opt_color_ok(text_color(t))
    &&& (s.background is Some && t.background is Some) ==> opt_color_ok(s.background)
        && opt_color_ok(t.background)
    &&& border_colors_ok(s, t)
}

pub open spec fn border_colors_ok(s: SemanticElement, t: SemanticElement) -> bool {
    match (s.border, t.border) {
        (Some(sb), Some(tb)) => (sb.color is Some && tb.color is Some) ==> opt_color_ok(sb.color)
            && opt_color_ok(tb.color),
        _ => true,
    }
}

fn pair_head(
    sp: &Vec<char>,
    tp: &Vec<char>,
    s: &SemanticElement,
    t: &SemanticElement,
    tol: &Option<Tolerances>,
    table: &Vec<ColorDistance>,
) -> (r: Vec<Diagnostic>)
    requires
        pair_colors_ok(*s, *t),
    ensures
        diags_view(r@) == pair_diags_head(sp@, tp@, *s, *t, *tol, table@),
{
    let id = match_label_of(s);
    let d1 = check_text(&id, sp, tp, s, t);
    let d2 = check_type(&id, sp, tp, s, t);
    let d3 = check_color_pair("WRONG_COLOR", &id, sp, tp, text_color_of(s), text_color_of(t), tol, table);
    let d4 = check_font(&id, sp, tp, s, t, tol);
    let d5 = check_color_pair("WRONG_BACKGROUND", &id, sp, tp, &s.background, &t.background, tol, table);
    let d6 = check_icon(&id, s, t);
    let a = concat(d1, d2);
    let b = concat(a, d3);
    let c = concat(b, d4);
    let d = concat(c, d5);
    concat(d, d6)
}

fn pair_tail(
    sp: &Vec<char>,
    tp: &Vec<char>,
    s: &SemanticElement,
    t: &SemanticElement,
    tol: &Option<Tolerances>,
    table: &Vec<ColorDistance>,
    vw: i32,
) -> (r: Vec<Diagnostic>)
    requires
        pair_colors_ok(*s, *t),
    ensures
        diags_view(r@) == pair_diags_tail(sp@, tp@, *s, *t, *tol, table@, vw as int),
{
    let id = match_label_of(s);
    let d7 = check_lines(&id, sp, tp, s, t);
    let d8 = check_truncated(&id, sp, tp, s, t);
    let d9 = check_gradient(&id, sp, tp, s, t);
    let d10 = check_border(&id, sp, tp, s, t, tol, table);
    let d11 = check_radius(&id, sp, tp, s, t, tol);
    let d12 = check_bounds(&id, sp, tp, s, t, tol, vw);
    let a = concat(d7, d8);
    let b = concat(a, d9);
    let c = concat(b, d10);
    let d = concat(c, d11);
    concat(d, d12)
}

/// All differences of one matched pair.
pub fn pair_diagnostics(
    sp: &Vec<char>,
    tp: &Vec<char>,
    s: &SemanticElement,
    t: &SemanticElement,
    tol: &Option<Tolerances>,
    table: &Vec<ColorDistance>,
    vw: i32,
) -> (r: Vec<Diagnostic>)
    requires
        pair_colors_ok(*s, *t),
    ensures
        diags_view(r@) == pair_diags(sp@, tp@, *s, *t, *tol, table@, vw as int),
{
    let h = pair_head(sp, tp, s, t, tol, table);
    let tl = pair_tail(sp, tp, s, t, tol, table, vw);
    concat(h, tl)
}

// ---------------------------------------------------------------------------
// The report
// ---------------------------------------------------------------------------

/// How an unmatched element is named: its content, else its ID, else
/// `(unnamed)`.
pub open spec fn element_label(e: SemanticElement) -> Seq<char> {
    match e.content {
        Some(c) => c@,
        None => if e.id@.len() == 0 {
            "(unnamed)"@
        } else {
            e.id@
        },
    }
}

pub open spec fn id_part(platform: Seq<char>, e: SemanticElement) -> Seq<char> {
    if e.id@.len() == 0 {
        Seq::empty()
    } else {
        " ("@ + platform + ":"@ + e.id@ + ")"@
    }
}

/// A source element with no match: an error.
pub open spec fn missing_diag(sp: Seq<char>, tp: Seq<char>, e: SemanticElement) -> DiagView {
    (
        Severity::Error,
        "MISSING: \""@ + decoded(element_label(e)) + "\" "@ + e.elem_type@ + id_part(sp, e)
            + " — not found in "@ + tp,
    )
}

/// A target element with no match: information.
pub open spec fn extra_diag(sp: Seq<char>, tp: Seq<char>, e: SemanticElement) -> DiagView {
    (
        Severity::Info,
        "EXTRA: \""@ + decoded(element_label(e)) + "\" "@ + e.elem_type@ + " in "@ + tp + id_part(tp, e)
            + " — not in "@ + sp,
    )
}

pub open spec fn missing_diags(sp: Seq<char>, tp: Seq<char>, src: Seq<SemanticElement>, idx: Seq<usize>) -> Seq<DiagView> {
    idx.map_values(|i: usize| missing_diag(sp, tp, src[i as int]))
}

pub open spec fn extra_diags(sp: Seq<char>, tp: Seq<char>, tgt: Seq<SemanticElement>, idx: Seq<usize>) -> Seq<DiagView> {
    idx.map_values(|i: usize| extra_diag(sp, tp, tgt[i as int]))
}

/// The differences of every match, in match order.
pub open spec fn matches_diags(
    sp: Seq<char>,
    tp: Seq<char>,
    src: Seq<SemanticElement>,
    tgt: Seq<SemanticElement>,
    ms: Seq<ElementMatch>,
    tol: Option<Tolerances>,
    table: Seq<ColorDistance>,
    vw: int,
) -> Seq<DiagView>
    decreases ms.len(),
{
    if ms.len() == 0 {
        Seq::empty()
    } else {
        let m = ms.last();
        matches_diags(sp, tp, src, tgt, ms.drop_last(), tol, table, vw) + pair_diags(
            sp,
            tp,
            src[m.src as int],
            tgt[m.tgt as int],
            tol,
            table,
            vw,
        )
    }
}

/// How many matches show no difference at all.
pub open spec fn passing(
    sp: Seq<char>,
    tp: Seq<char>,
    src: Seq<SemanticElement>,
    tgt: Seq<SemanticElement>,
    ms: Seq<ElementMatch>,
    tol: Option<Tolerances>,
    table: Seq<ColorDistance>,
    vw: int,
) -> nat
    decreases ms.len(),
{
    if ms.len() == 0 {
        0
    } else {
        let m = ms.last();
        passing(sp, tp, src, tgt, ms.drop_last(), tol, table, vw) + if pair_diags(
            sp,
            tp,
            src[m.src as int],
            tgt[m.tgt as int],
            tol,
            table,
            vw,
        ).len() == 0 {
            1nat
        } else {
            0nat
        }
    }
}

/// The viewport width the spatial percentages are taken against: the
/// source's, else the target's, else 400.
pub open spec fn viewport_width(src: SemanticSchema, tgt: SemanticSchema) -> int {
    match src.viewport {
        Some(v) => v.width as int,
        None => match tgt.viewport {
            Some(v) => v.width as int,
            None => 400,
        },
    }
}

/// The colours of every matched pair can be normalised.
pub open spec fn diff_colors_ok(src: SemanticSchema, tgt: SemanticSchema, accessible_only: bool) -> bool {
    let s = kept_elements(src.elements@, accessible_only);
    let t = kept_elements(tgt.elements@, accessible_only);
    let ms = matched_state(s, t).0;
    forall|k: int|
        0 <= k < ms.len() ==> pair_colors_ok(s[#[trigger] ms[k].src as int], t[ms[k].tgt as int])
}

/// Every diagnostic of a comparison, in report order: missing source
/// elements, extra target elements, then the differences of each match.
pub open spec fn all_diags(
    src: SemanticSchema,
    tgt: SemanticSchema,
    tol: Option<Tolerances>,
    accessible_only: bool,
    table: Seq<ColorDistance>,
) -> Seq<DiagView> {
    let s = kept_elements(src.elements@, accessible_only);
    let t = kept_elements(tgt.elements@, accessible_only);
    let st = matched_state(s, t);
    let sp = src.platform@;
    let tp = tgt.platform@;
    missing_diags(sp, tp, s, unflagged(st.1, s.len() as int)) + extra_diags(
        sp,
        tp,
        t,
        unflagged(st.2, t.len() as int),
    ) + matches_diags(sp, tp, s, t, st.0, tol, table, viewport_width(src, tgt))
}

/// The messages of the diagnostics of one severity, in order.
pub open spec fn severity_messages(ds: Seq<DiagView>, sev: Severity) -> Seq<Seq<char>>
    decreases ds.len(),
{
    if ds.len() == 0 {
        Seq::empty()
    } else if ds.last().0 == sev {
        severity_messages(ds.drop_last(), sev).push(ds.last().1)
    } else {
        severity_messages(ds.drop_last(), sev)
    }
}

/// The outcome of comparing two schemas.
#[derive(Debug)]
pub struct DiffReport {
    pub matched: usize,
    pub unmatched_source: usize,
    pub unmatched_target: usize,
    pub tolerances_applied: bool,
    /// Matches that show no difference.
    pub pass_count: usize,
    pub errors: Vec<String>,
    pub warnings: Vec<String>,
    pub infos: Vec<String>,
}

proof fn lemma_matches_step(
    sp: Seq<char>,
    tp: Seq<char>,
    src: Seq<SemanticElement>,
    tgt: Seq<SemanticElement>,
    ms: Seq<ElementMatch>,
    i: int,
    tol: Option<Tolerances>,
    table: Seq<ColorDistance>,
    vw: int,
)
    requires
        0 <= i < ms.len(),
    ensures
        matches_diags(sp, tp, src, tgt, ms.subrange(0, i + 1), tol, table, vw) == matches_diags(
            sp,
            tp,
            src,
            tgt,
            ms.subrange(0, i),
            tol,
            table,
            vw,
        ) + pair_diags(sp, tp, src[ms[i].src as int], tgt[ms[i].tgt as int], tol, table, vw),
        passing(sp, tp, src, tgt, ms.subrange(0, i + 1), tol, table, vw) == passing(
            sp,
            tp,
            src,
            tgt,
            ms.subrange(0, i),
            tol,
            table,
            vw,
        ) + if pair_diags(sp, tp, src[ms[i].src as int], tgt[ms[i].tgt as int], tol, table, vw).len()
            == 0 {
            1nat
        } else {
            0nat
        },
{
    let prefix = ms.subrange(0, i + 1);
    assert(prefix.drop_last() =~= ms.subrange(0, i));
    assert(prefix.last() == ms[i]);
}

proof fn lemma_unflagged_bound(flags: Seq<bool>, k: int)
    requires
        0 <= k <= flags.len(),
    ensures
        forall|j: int| 0 <= j < unflagged(flags, k).len() ==> #[trigger] unflagged(flags, k)[j] < k,
        unflagged(flags, k).len() <= k,
    decreases k,
{
    if k > 0 {
        lemma_unflagged_bound(flags, k - 1);
    }
}

fn label_of(e: &SemanticElement) -> (r: Vec<char>)
    ensures
        r@ == element_label(*e),
{
    match &e.content {
        Some(c) => chars_of(c.as_str()),
        None => if e.id.as_str().is_empty() {
            chars_of("(unnamed)")
        } else {
            chars_of(e.id.as_str())
        },
    }
}

fn push_id_part(m: &mut Vec<char>, platform: &Vec<char>, e: &SemanticElement)
    ensures
        final(m)@ == old(m)@ + id_part(platform@, *e),
{
    if !e.id.as_str().is_empty() {
        append_str(m, " (");
        append_chars(m, platform);
        append_str(m, ":");
        append_str(m, e.id.as_str());
        append_str(m, ")");
    } else {
        assert(old(m)@ + Seq::<char>::empty() =~= old(m)@);
    }
}

fn missing_diagnostic(sp: &Vec<char>, tp: &Vec<char>, e: &SemanticElement) -> (r: Diagnostic)
    ensures
        diag_view(r) == missing_diag(sp@, tp@, *e),
{
    let label = label_of(e);
    let dl = decode_chars(&label);
    let mut m: Vec<char> = Vec::new();
    append_str(&mut m, "MISSING: \"");
    append_chars(&mut m, &dl);
    append_str(&mut m, "\" ");
    append_str(&mut m, e.elem_type.as_str());
    push_id_part(&mut m, sp, e);
    append_str(&mut m, " — not found in ");
    append_chars(&mut m, tp);
    assert(m@ =~= "MISSING: \""@ + decoded(element_label(*e)) + "\" "@ + e.elem_type@ + id_part(sp@, *e)
        + " — not found in "@ + tp@);
    Diagnostic { severity: Severity::Error, message: string_of(&m) }
}

fn extra_diagnostic(sp: &Vec<char>, tp: &Vec<char>, e: &SemanticElement) -> (r: Diagnostic)
    ensures
        diag_view(r) == extra_diag(sp@, tp@, *e),
{
    let label = label_of(e);
    let dl = decode_chars(&label);
    let mut m: Vec<char> = Vec::new();
    append_str(&mut m, "EXTRA: \"");
    append_chars(&mut m, &dl);
    append_str(&mut m, "\" ");
    append_str(&mut m, e.elem_type.as_str());
    append_str(&mut m, " in ");
    append_chars(&mut m, tp);
    push_id_part(&mut m, tp, e);
    append_str(&mut m, " — not in ");
    append_chars(&mut m, sp);
    assert(m@ =~= "EXTRA: \""@ + decoded(element_label(*e)) + "\" "@ + e.elem_type@ + " in "@ + tp@
        + id_part(tp@, *e) + " — not in "@ + sp@);
    Diagnostic { severity: Severity::Info, message: string_of(&m) }
}

fn viewport_width_of(src: &SemanticSchema, tgt: &SemanticSchema) -> (r: i32)
    ensures
        r as int == viewport_width(*src, *tgt),
{
    match &src.viewport {
        Some(v) => v.width,
        None => match &tgt.viewport {
            Some(v) => v.width,
            None => 400,
        },
    }
}

fn missing_list(sp: &Vec<char>, tp: &Vec<char>, sv: &Vec<&SemanticElement>, idx: &Vec<usize>) -> (r: Vec<Diagnostic>)
    requires
        forall|j: int| 0 <= j < idx@.len() ==> #[trigger] idx@[j] < sv@.len(),
    ensures
        diags_view(r@) == missing_diags(sp@, tp@, derefs(sv@), idx@),
{
    let ghost S = derefs(sv@);
    let mut diags: Vec<Diagnostic> = Vec::new();
    let mut i: usize = 0;
    while i < idx.len()
        invariant
            i <= idx.len(),
            S == derefs(sv@),
            forall|j: int| 0 <= j < idx@.len() ==> #[trigger] idx@[j] < sv@.len(),
            diags_view(diags@) == missing_diags(sp@, tp@, S, idx@.subrange(0, i as int)),
        decreases idx.len() - i,
    {
        let k = idx[i];
        assert(S[k as int] == *sv@[k as int]);
        let d = missing_diagnostic(sp, tp, sv[k]);
        let ghost before = diags_view(diags@);
        diags.push(d);
        i = i + 1;
        assert(diags_view(diags@) =~= before.push(missing_diag(sp@, tp@, S[k as int])));
        assert(missing_diags(sp@, tp@, S, idx@.subrange(0, i as int)) =~= missing_diags(
            sp@,
            tp@,
            S,
            idx@.subrange(0, i - 1),
        ).push(missing_diag(sp@, tp@, S[k as int])));
    }
    assert(idx@.subrange(0, i as int) =~= idx@);
    diags
}

fn extra_list(sp: &Vec<char>, tp: &Vec<char>, tv: &Vec<&SemanticElement>, idx: &Vec<usize>) -> (r: Vec<Diagnostic>)
    requires
        forall|j: int| 0 <= j < idx@.len() ==> #[trigger] idx@[j] < tv@.len(),
    ensures
        diags_view(r@) == extra_diags(sp@, tp@, derefs(tv@), idx@),
{
    let ghost T = derefs(tv@);
    let mut diags: Vec<Diagnostic> = Vec::new();
    let mut i: usize = 0;
    while i < idx.len()
        invariant
            i <= idx.len(),
            T == derefs(tv@),
            forall|j: int| 0 <= j < idx@.len() ==> #[trigger] idx@[j] < tv@.len(),
            diags_view(diags@) == extra_diags(sp@, tp@, T, idx@.subrange(0, i as int)),
        decreases idx.len() - i,
    {
        let k = idx[i];
        assert(T[k as int] == *tv@[k as int]);
        let d = extra_diagnostic(sp, tp, tv[k]);
        let ghost before = diags_view(diags@);
        diags.push(d);
        i = i + 1;
        assert(diags_view(diags@) =~= before.push(extra_diag(sp@, tp@, T[k as int])));
        assert(extra_diags(sp@, tp@, T, idx@.subrange(0, i as int)) =~= extra_diags(
            sp@,
            tp@,
            T,
            idx@.subrange(0, i - 1),
        ).push(extra_diag(sp@, tp@, T[k as int])));
    }
    assert(idx@.subrange(0, i as int) =~= idx@);
    diags
}

pub open spec fn matches_colors_ok(src: Seq<SemanticElement>, tgt: Seq<SemanticElement>, ms: Seq<ElementMatch>) -> bool {
    forall|k: int|
        0 <= k < ms.len() ==> #[trigger] pair_colors_ok(src[ms[k].src as int], tgt[ms[k].tgt as int])
            && ms[k].src < src.len() && ms[k].tgt < tgt.len()
}

fn match_list(
    sp: &Vec<char>,
    tp: &Vec<char>,
    sv: &Vec<&SemanticElement>,
    tv: &Vec<&SemanticElement>,
    ms: &Vec<ElementMatch>,
    tol: &Option<Tolerances>,
    table: &Vec<ColorDistance>,
    vw: i32,
) -> (r: (Vec<Diagnostic>, usize))
    requires
        matches_colors_ok(derefs(sv@), derefs(tv@), ms@),
    ensures
        diags_view(r.0@) == matches_diags(sp@, tp@, derefs(sv@), derefs(tv@), ms@, *tol, table@, vw as int),
        r.1 == passing(sp@, tp@, derefs(sv@), derefs(tv@), ms@, *tol, table@, vw as int),
{
    let ghost S = derefs(sv@);
    let ghost T = derefs(tv@);
    let mut diags: Vec<Diagnostic> = Vec::new();
    let mut pass_count: usize = 0;
    let mut i: usize = 0;
    while i < ms.len()
        invariant
            i <= ms.len(),
            S == derefs(sv@),
            T == derefs(tv@),
            matches_colors_ok(S, T, ms@),
            pass_count <= i,
            pass_count == passing(sp@, tp@, S, T, ms@.subrange(0, i as int), *tol, table@, vw as int),
            diags_view(diags@) == matches_diags(sp@, tp@, S, T, ms@.subrange(0, i as int), *tol, table@, vw as int),
        decreases ms.len() - i,
    {
        let m = ms[i];
        assert(pair_colors_ok(S[ms@[i as int].src as int], T[ms@[i as int].tgt as int]));
        assert(S[m.src as int] == *sv@[m.src as int]);
        assert(T[m.tgt as int] == *tv@[m.tgt as int]);
        let pd = pair_diagnostics(sp, tp, sv[m.src], tv[m.tgt], tol, table, vw);
        let ghost before = diags_view(diags@);
        let ghost pdv = diags_view(pd@);
        if pd.len() == 0 {
            pass_count = pass_count + 1;
        }
        let mut pd = pd;
        diags.append(&mut pd);
        proof {
            lemma_matches_step(sp@, tp@, S, T, ms@, i as int, *tol, table@, vw as int);
            assert(diags_view(diags@) =~= before + pdv);
        }
        i = i + 1;
    }
    assert(ms@.subrange(0, i as int) =~= ms@);
    (diags, pass_count)
}

fn split_by_severity(diags: &Vec<Diagnostic>) -> (r: (Vec<String>, Vec<String>, Vec<String>))
    ensures
        r.0.deep_view() == severity_messages(diags_view(diags@), Severity::Error),
        r.1.deep_view() == severity_messages(diags_view(diags@), Severity::Warning),
        r.2.deep_view() == severity_messages(diags_view(diags@), Severity::Info),
{
    let mut errors: Vec<String> = Vec::new();
    let mut warnings: Vec<String> = Vec::new();
    let mut infos: Vec<String> = Vec::new();
    let ghost all = diags_view(diags@);
    let mut i: usize = 0;
    while i < diags.len()
        invariant
            i <= diags.len(),
            all == diags_view(diags@),
            errors.deep_view() == severity_messages(all.subrange(0, i as int), Severity::Error),
            warnings.deep_view() == severity_messages(all.subrange(0, i as int), Severity::Warning),
            infos.deep_view() == severity_messages(all.subrange(0, i as int), Severity::Info),
        decreases diags.len() - i,
    {
        let d = &diags[i];
        let msg = d.message.clone();
        proof {
            let prefix = all.subrange(0, i + 1);
            assert(prefix.drop_last() =~= all.subrange(0, i as int));
            assert(prefix.last() == diag_view(diags@[i as int]));
        }
        match d.severity {
            Severity::Error => {
                errors.push(msg);
                assert(errors.deep_view() =~= severity_messages(all.subrange(0, i + 1), Severity::Error));
            },
            Severity::Warning => {
                warnings.push(msg);
                assert(warnings.deep_view() =~= severity_messages(all.subrange(0, i + 1), Severity::Warning));
            },
            Severity::Info => {
                infos.push(msg);
                assert(infos.deep_view() =~= severity_messages(all.subrange(0, i + 1), Severity::Info));
            },
        }
        i = i + 1;
    }
    assert(all.subrange(0, i as int) =~= all);
    (errors, warnings, infos)
}

/// Compares two schemas: drops generated containers (and, when asked,
/// inaccessible elements), matches the remaining elements, and reports
/// missing source elements as errors, extra target elements as
/// information, and the differences of every match.
pub fn diff_schemas(
    src: &SemanticSchema,
    tgt: &SemanticSchema,
    tol: &Option<Tolerances>,
    accessible_only: bool,
    table: &Vec<ColorDistance>,
) -> (r: DiffReport)
    requires
        diff_colors_ok(*src, *tgt, accessible_only),
    ensures
        ({
            let s = kept_elements(src.elements@, accessible_only);
            let t = kept_elements(tgt.elements@, accessible_only);
            let st = matched_state(s, t);
            let all = all_diags(*src, *tgt, *tol, accessible_only, table@);
            &&& r.matched == st.0.len()
            &&& r.unmatched_source == unflagged(st.1, s.len() as int).len()
            &&& r.unmatched_target == unflagged(st.2, t.len() as int).len()
            &&& r.tolerances_applied == tol.is_some()
            &&& r.pass_count == passing(src.platform@, tgt.platform@, s, t, st.0, *tol, table@, viewport_width(*src, *tgt))
            &&& r.errors.deep_view() == severity_messages(all, Severity::Error)
            &&& r.warnings.deep_view() == severity_messages(all, Severity::Warning)
            &&& r.infos.deep_view() == severity_messages(all, Severity::Info)
        }),
{
    let ghost S = kept_elements(src.elements@, accessible_only);
    let ghost T = kept_elements(tgt.elements@, accessible_only);
    let sv = kept_refs(&src.elements, accessible_only);
    let tv = kept_refs(&tgt.elements, accessible_only);
    let matching = match_elements(&sv, &tv);
    let ghost st = matched_state(S, T);
    proof {
        crate::matching_laws::law_matching_consistent(S, T);
        lemma_unflagged_bound(st.1, S.len() as int);
        lemma_unflagged_bound(st.2, T.len() as int);
        let ms = st.0;
        assert forall|k: int| 0 <= k < ms.len() implies #[trigger] pair_colors_ok(S[ms[k].src as int], T[ms[k].tgt as int])
            && ms[k].src < S.len() && ms[k].tgt < T.len() by {
            assert(st.0[k] == ms[k]);
        }
    }
    let sp = chars_of(src.platform.as_str());
    let tp = chars_of(tgt.platform.as_str());
    let vw = viewport_width_of(src, tgt);
    let missing = missing_list(&sp, &tp, &sv, &matching.unmatched_src);
    let extra = extra_list(&sp, &tp, &tv, &matching.unmatched_tgt);
    let (paired, pass_count) = match_list(&sp, &tp, &sv, &tv, &matching.matches, tol, table, vw);
    let diags = concat(concat(missing, extra), paired);
    let (errors, warnings, infos) = split_by_severity(&diags);
    DiffReport {
        matched: matching.matches.len(),
        unmatched_source: matching.unmatched_src.len(),
        unmatched_target: matching.unmatched_tgt.len(),
        tolerances_applied: tol.is_some(),
        pass_count,
        errors,
        warnings,
        infos,
    }
}

fn opt_color_sliceable(c: &Option<String>) -> (r: bool)
    ensures
        r == opt_color_ok(*c),
{
    match c {
        Some(x) => is_color_sliceable(x.as_str()),
        None => true,
    }
}

fn pair_colors_comparable(s: &SemanticElement, t: &SemanticElement) -> (r: bool)
    ensures
        r == pair_colors_ok(*s, *t),
{
    let a = text_color_of(s);
    let b = text_color_of(t);
    let fg_ok = !(a.is_some() && b.is_some()) || (opt_color_sliceable(a) && opt_color_sliceable(b));
    let bg_ok = !(s.background.is_some() && t.background.is_some()) || (opt_color_sliceable(
        &s.background,
    ) && opt_color_sliceable(&t.background));
    let border_ok = match (&s.border, &t.border) {
        (Some(sb), Some(tb)) => !(sb.color.is_some() && tb.color.is_some()) || (opt_color_sliceable(
            &sb.color,
        ) && opt_color_sliceable(&tb.color)),
        _ => true,
    };
    fg_ok && bg_ok && border_ok
}

/// Whether every colour that a comparison of the two schemas would
/// normalise can be normalised (`diff_schemas` may be called exactly then).
pub fn diff_colors_comparable(src: &SemanticSchema, tgt: &SemanticSchema, accessible_only: bool) -> (r: bool)
    ensures
        r == diff_colors_ok(*src, *tgt, accessible_only),
{
    let ghost S = kept_elements(src.elements@, accessible_only);
    let ghost T = kept_elements(tgt.elements@, accessible_only);
    let sv = kept_refs(&src.elements, accessible_only);
    let tv = kept_refs(&tgt.elements, accessible_only);
    let matching = match_elements(&sv, &tv);
    let ghost ms = matched_state(S, T).0;
    proof {
        crate::matching_laws::law_matching_consistent(S, T);
        assert forall|k: int| 0 <= k < ms.len() implies #[trigger] ms[k].src < S.len() && ms[k].tgt < T.len() by {
            assert(matched_state(S, T).0[k] == ms[k]);
        }
    }
    let mut i: usize = 0;
    while i < matching.matches.len()
        invariant
            i <= matching.matches.len(),
            matching.matches@ == ms,
            derefs(sv@) == S,
            derefs(tv@) == T,
            S == kept_elements(src.elements@, accessible_only),
            T == kept_elements(tgt.elements@, accessible_only),
            ms == matched_state(S, T).0,
            forall|k: int| 0 <= k < ms.len() ==> #[trigger] ms[k].src < S.len() && ms[k].tgt < T.len(),
            forall|k: int| 0 <= k < i ==> #[trigger] pair_colors_ok(S[ms[k].src as int], T[ms[k].tgt as int]),
        decreases matching.matches.len() - i,
    {
        let m = matching.matches[i];
        assert(ms[i as int] == m);
        assert(S[m.src as int] == *sv@[m.src as int]);
        assert(T[m.tgt as int] == *tv@[m.tgt as int]);
        if !pair_colors_comparable(sv[m.src], tv[m.tgt]) {
            assert(!pair_colors_ok(S[ms[i as int].src as int], T[ms[i as int].tgt as int]));
            assert(diff_colors_ok(*src, *tgt, accessible_only) ==> pair_colors_ok(
                S[ms[i as int].src as int],
                T[ms[i as int].tgt as int],
            ));
            return false;
        }
        i = i + 1;
    }
    true
}

// ---------------------------------------------------------------------------
// The verdict of a comparison
// ---------------------------------------------------------------------------

/// How many of the messages contain `p`.
pub open spec fn count_containing(ms: Seq<Seq<char>>, p: Seq<char>) -> nat
    decreases ms.len(),
{
    if ms.len() == 0 {
        0
    } else {
        count_containing(ms.drop_last(), p) + if crate::text::seq_contains(ms.last(), p) {
            1nat
        } else {
            0nat
        }
    }
}

fn count_with(ms: &Vec<String>, p: &str) -> (r: usize)
    ensures
        r == count_containing(ms.deep_view(), p@),
        r <= ms@.len(),
{
    let pv = chars_of(p);
    let ghost all = ms.deep_view();
    let mut n: usize = 0;
    let mut i: usize = 0;
    while i < ms.len()
        invariant
            i <= ms@.len(),
            pv@ == p@,
            all == ms.deep_view(),
            n == count_containing(all.subrange(0, i as int), p@),
            n <= i,
        decreases ms@.len() - i,
    {
        proof {
            let q = all.subrange(0, i + 1);
            assert(q.drop_last() =~= all.subrange(0, i as int));
            assert(q.last() == ms@[i as int]@);
        }
        if crate::text::contains(&chars_of(ms[i].as_str()), &pv) {
            n = n + 1;
        }
        i = i + 1;
    }
    assert(all.subrange(0, i as int) =~= all);
    n
}

/// The verdict of a comparison: its violations (the errors and the
/// warnings marked `VIOLATION`) and the differences a tolerance accepted
/// (warnings and information marked `within tolerance`).
pub struct DiffTally {
    pub violations: u128,
    pub within_tolerance: u128,
}

/// Counts the violations and the tolerated differences of a report; the
/// command fails when there is a violation.
pub fn tally(report: &DiffReport) -> (r: DiffTally)
    ensures
        r.violations == count_containing(report.warnings.deep_view(), "VIOLATION"@) + report.errors@.len(),
        r.within_tolerance == count_containing(report.warnings.deep_view(), "within tolerance"@) + count_containing(
            report.infos.deep_view(),
            "within tolerance"@,
        ),
{
    let v = count_with(&report.warnings, "VIOLATION");
    let w = count_with(&report.warnings, "within tolerance");
    let i = count_with(&report.infos, "within tolerance");
    proof {
        assert(report.warnings.deep_view().len() == report.warnings@.len());
        assert(report.infos.deep_view().len() == report.infos@.len());
    }
    DiffTally { violations: v as u128 + report.errors.len() as u128, within_tolerance: w as u128 + i as u128 }
}

/// The exit status of a comparison: 1 when it found any error or warning,
/// else 0.
pub fn diff_exit_code(report: &DiffReport) -> (r: i32)
    ensures
        r == if report.errors@.len() > 0 || report.warnings@.len() > 0 { 1int } else { 0int },
{
    if report.errors.len() > 0 || report.warnings.len() > 0 {
        1
    } else {
        0
    }
}

// ---------------------------------------------------------------------------
// Entry points that test the colours first
// ---------------------------------------------------------------------------

/// A colour in comparable form, or nothing when its uppercase form cannot
/// be cut at byte 2.
pub fn normalize_color_checked(hex: &str) -> (r: Option<String>)
    ensures
        match r {
            Some(n) => color_sliceable(hex@) && n@ == normalized_color(hex@),
            None => !color_sliceable(hex@),
        },
{
    if is_color_sliceable(hex) {
        Some(normalize_color(hex))
    } else {
        None
    }
}

/// Whether two colours are the same after normalising, or nothing when one
/// of them cannot be normalised.
pub fn colors_equal_checked(a: &str, b: &str) -> (r: Option<bool>)
    ensures
        match r {
            Some(e) => color_sliceable(a@) && color_sliceable(b@) && e == (normalized_color(a@) == normalized_color(b@)),
            None => !(color_sliceable(a@) && color_sliceable(b@)),
        },
{
    if is_color_sliceable(a) && is_color_sliceable(b) {
        Some(colors_equal(a, b))
    } else {
        None
    }
}

/// What a report of the comparison of two captures holds.
pub open spec fn report_holds(
    src: SemanticSchema,
    tgt: SemanticSchema,
    tol: Option<Tolerances>,
    accessible_only: bool,
    table: Seq<ColorDistance>,
    r: DiffReport,
) -> bool {
    let s = kept_elements(src.elements@, accessible_only);
    let t = kept_elements(tgt.elements@, accessible_only);
    let st = matched_state(s, t);
    let all = all_diags(src, tgt, tol, accessible_only, table);
    &&& r.matched == st.0.len()
    &&& r.unmatched_source == unflagged(st.1, s.len() as int).len()
    &&& r.unmatched_target == unflagged(st.2, t.len() as int).len()
    &&& r.tolerances_applied == tol.is_some()
    &&& r.pass_count == passing(src.platform@, tgt.platform@, s, t, st.0, tol, table, viewport_width(src, tgt))
    &&& r.errors.deep_view() == severity_messages(all, Severity::Error)
    &&& r.warnings.deep_view() == severity_messages(all, Severity::Warning)
    &&& r.infos.deep_view() == severity_messages(all, Severity::Info)
}

/// Compares two captures when the colours of their matched pairs can be
/// normalised; nothing otherwise (comparing them would cut a colour
/// inside a character).
pub fn diff_if_comparable(
    src: &SemanticSchema,
    tgt: &SemanticSchema,
    tol: &Option<Tolerances>,
    accessible_only: bool,
    table: &Vec<ColorDistance>,
) -> (r: Option<DiffReport>)
    ensures
        match r {
            Some(rep) => diff_colors_ok(*src, *tgt, accessible_only) && report_holds(
                *src,
                *tgt,
                *tol,
                accessible_only,
                table@,
                rep,
            ),
            None => !diff_colors_ok(*src, *tgt, accessible_only),
        },
{
    if diff_colors_comparable(src, tgt, accessible_only) {
        Some(diff_schemas(src, tgt, tol, accessible_only, table))
    } else {
        None
    }
}

} // verus!
