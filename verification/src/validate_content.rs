//! `vdb validate-content`: compares the texts of a capture with those of an
//! accessibility dump (uiautomator XML or WebDriverAgent JSON).

use vstd::prelude::*;

use crate::schema::{Micro, SemanticElement, SemanticSchema};
use crate::text::{
    append_str, chars_eq, chars_of, decode_chars, decoded, find_char_from, find_from, find_seq_from,
    first_index_from, is_ascii_digit, is_digit, lemma_find_from_props, lemma_first_index_from_props,
    occurs_at, string_of, subvec, to_lowercase, trim, trim_chars, unicode_lowercase,
};
use crate::tolerance::{all_digits, digits_value};

verus! {

/// Arguments of `vdb validate-content`.
pub struct ValidateContentArgs {
    /// Agent semantic YAML.
    pub schema: String,
    /// Accessibility dump (uiautomator XML or WDA JSON).
    pub a11y_dump: String,
    /// Output as JSON.
    pub json: bool,
    /// Exclude elements inside external render surfaces (maps, webviews).
    pub exclude_external: bool,
    /// Exclude elements beyond the viewport.
    pub exclude_offscreen: bool,
}

/// One element of an accessibility dump, in device pixels.
pub struct A11yElement {
    pub text: String,
    pub class: String,
    pub x: i64,
    pub y: i64,
    pub w: i64,
    pub h: i64,
}

pub struct A11ySpec {
    pub text: Seq<char>,
    pub class: Seq<char>,
    pub x: int,
    pub y: int,
    pub w: int,
    pub h: int,
}

impl View for A11yElement {
    type V = A11ySpec;

    open spec fn view(&self) -> A11ySpec {
        A11ySpec { text: self.text@, class: self.class@, x: self.x as int, y: self.y as int, w: self.w as int, h: self.h as int }
    }
}

pub open spec fn a11y_view(es: Seq<A11yElement>) -> Seq<A11ySpec> {
    es.map_values(|e: A11yElement| e@)
}

// ---------------------------------------------------------------------------
// Text normalisation
// ---------------------------------------------------------------------------

/// Entities decoded, trimmed, lowercased.
pub open spec fn normalized_text(s: Seq<char>) -> Seq<char> {
    unicode_lowercase(trim(decoded(s)))
}

/// Normalises a text for comparison: XML entities decoded, surrounding
/// whitespace removed, lowercased.
pub fn normalize(s: &str) -> (r: String)
    ensures
        r@ == normalized_text(s@),
{
    let v = chars_of(s);
    let d = decode_chars(&v);
    let t = trim_chars(&d);
    let ts = string_of(&t);
    to_lowercase(ts.as_str())
}

/// A text compares as its entity-decoded, trimmed, lowercased form; so
/// writing a character as its XML entity (`&amp;`, `&lt;`, `&gt;`,
/// `&quot;`, `&apos;`), with no `&` before it and no `&` or `;` after it,
/// does not change how the text compares, and text without `&` compares as
/// it is, trimmed and lowercased.
pub proof fn law_entities_compare_alike(s: Seq<char>, t: Seq<char>, u: Seq<char>)
    ensures
        normalized_text(s) == unicode_lowercase(trim(decoded(s))),
        !crate::text::has_char(s, '&') ==> normalized_text(s) == unicode_lowercase(trim(s)),
        (!crate::text::has_char(t, '&') && !crate::text::has_char(u, '&') && !crate::text::has_char(u, ';')) ==> {
            &&& normalized_text(t + seq!['&', 'a', 'm', 'p', ';'] + u) == normalized_text(t + seq!['&'] + u)
            &&& normalized_text(t + seq!['&', 'l', 't', ';'] + u) == normalized_text(t + seq!['<'] + u)
            &&& normalized_text(t + seq!['&', 'g', 't', ';'] + u) == normalized_text(t + seq!['>'] + u)
            &&& normalized_text(t + seq!['&', 'q', 'u', 'o', 't', ';'] + u) == normalized_text(t + seq!['"'] + u)
            &&& normalized_text(t + seq!['&', 'a', 'p', 'o', 's', ';'] + u) == normalized_text(t + seq!['\''] + u)
        },
{
    crate::text::law_decoding(s);
    if !crate::text::has_char(t, '&') && !crate::text::has_char(u, '&') && !crate::text::has_char(u, ';') {
        crate::text::law_entities_decoded(t, u);
        lemma_plain_kept(t, '<', u);
        lemma_plain_kept(t, '>', u);
        lemma_plain_kept(t, '"', u);
        lemma_plain_kept(t, '\'', u);
    }
}

proof fn lemma_plain_kept(t: Seq<char>, c: char, u: Seq<char>)
    requires
        !crate::text::has_char(t, '&'),
        !crate::text::has_char(u, '&'),
        c != '&',
    ensures
        decoded(t + seq![c] + u) == t + seq![c] + u,
{
    let x = t + seq![c] + u;
    assert(!crate::text::has_char(x, '&')) by {
        if crate::text::has_char(x, '&') {
            let i = choose|i: int| 0 <= i < x.len() && x[i] == '&';
            if i < t.len() {
                assert(x[i] == t[i]);
            } else if i > t.len() {
                assert(x[i] == u[i - t.len() - 1]);
            }
        }
    }
    crate::text::law_decoding(x);
}

// ---------------------------------------------------------------------------
// Attributes and numbers
// ---------------------------------------------------------------------------

/// The value of attribute `attr` in a node's text: what stands between the
/// first ` attr="` and the next `"`.
pub open spec fn attr_value(node: Seq<char>, attr: Seq<char>) -> Option<Seq<char>> {
    let pat = seq![' '] + attr + seq!['=', '"'];
    match find_from(node, pat, 0) {
        None => None,
        Some(i) => {
            let st = i + pat.len();
            match first_index_from(node, '"', st) {
                None => None,
                Some(e) => Some(node.subrange(st, e)),
            }
        },
    }
}

/// Reads attribute `attr` of a node.
pub fn extract_attr(node: &str, attr: &str) -> (r: Option<String>)
    ensures
        opt_view(r) == attr_value(node@, attr@),
{
    let n = chars_of(node);
    let mut pat: Vec<char> = Vec::new();
    pat.push(' ');
    append_str(&mut pat, attr);
    pat.push('=');
    pat.push('"');
    assert(pat@ =~= seq![' '] + attr@ + seq!['=', '"']);
    match find_seq_from(&n, &pat, 0) {
        None => None,
        Some(i) => {
            proof {
                lemma_find_from_props(n@, pat@, 0);
            }
            let st = i + pat.len();
            match find_char_from(&n, '"', st) {
                None => None,
                Some(e) => {
                    proof {
                        lemma_first_index_from_props(n@, '"', st as int);
                    }
                    let v = subvec(&n, st, e);
                    Some(string_of(&v))
                },
            }
        },
    }
}

pub open spec fn opt_view(o: Option<String>) -> Option<Seq<char>> {
    match o {
        Some(s) => Some(s@),
        None => None,
    }
}

/// An integer as `str::parse` reads it: an optional sign and at least one
/// decimal digit.
pub open spec fn int_text(s: Seq<char>) -> Option<int> {
    let signed = s.len() > 0 && (s[0] == '-' || s[0] == '+');
    let body = if signed {
        s.drop_first()
    } else {
        s
    };
    if body.len() > 0 && all_digits(body) {
        Some(
            if s[0] == '-' {
                -(digits_value(body) as int)
            } else {
                digits_value(body) as int
            },
        )
    } else {
        None
    }
}

/// An `i32` as `str::parse::<i32>` reads it.
pub open spec fn i32_text(s: Seq<char>) -> Option<int> {
    match int_text(s) {
        Some(v) => if i32::MIN <= v <= i32::MAX {
            Some(v)
        } else {
            None
        },
        None => None,
    }
}

proof fn lemma_digits_value_grows(s: Seq<char>, d: char)
    requires
        is_digit(d),
    ensures
        digits_value(s.push(d)) == digits_value(s) * 10 + ((d as u32) - ('0' as u32)),
        digits_value(s.push(d)) >= digits_value(s),
{
    assert(s.push(d).drop_last() =~= s);
}

/// Reads an `i32` the way `str::parse::<i32>` does.
pub fn parse_i32(s: &Vec<char>) -> (r: Option<i32>)
    ensures
        r matches Some(v) ==> i32_text(s@) == Some(v as int),
        r is None ==> i32_text(s@) is None,
{
    let cap: u64 = 0x1_0000_0000;
    let signed = s.len() > 0 && (s[0] == '-' || s[0] == '+');
    let start: usize = if signed {
        1
    } else {
        0
    };
    let ghost body = if signed {
        s@.drop_first()
    } else {
        s@
    };
    if start >= s.len() {
        assert(body.len() == 0);
        return None;
    }
    let mut acc: u64 = 0;
    let mut i = start;
    assert(s@.subrange(start as int, start as int) =~= Seq::<char>::empty());
    while i < s.len()
        invariant
            start <= i <= s.len(),
            start == (if signed { 1int } else { 0int }),
            body == s@.subrange(start as int, s.len() as int),
            body == (if signed { s@.drop_first() } else { s@ }),
            signed == (s@.len() > 0 && (s@[0] == '-' || s@[0] == '+')),
            all_digits(s@.subrange(start as int, i as int)),
            acc == (if digits_value(s@.subrange(start as int, i as int)) >= cap {
                cap as int
            } else {
                digits_value(s@.subrange(start as int, i as int)) as int
            }),
            cap == 0x1_0000_0000,
        decreases s.len() - i,
    {
        let c = s[i];
        let ghost pre = s@.subrange(start as int, i as int);
        assert(s@.subrange(start as int, i + 1) =~= pre.push(c));
        if !is_ascii_digit(c) {
            assert(body[i - start] == c);
            assert(!is_digit(body[i - start]));
            assert(!all_digits(body));
            return None;
        }
        proof {
            lemma_digits_value_grows(pre, c);
        }
        let d = (c as u32 - '0' as u32) as u64;
        if acc >= cap {
            acc = cap;
        } else {
            let next = acc * 10 + d;
            acc = if next >= cap {
                cap
            } else {
                next
            };
        }
        i = i + 1;
    }
    assert(s@.subrange(start as int, i as int) =~= body);
    if acc >= cap {
        return None;
    }
    let neg = s[0] == '-';
    let v = acc as i64;
    let signed_v: i64 = if neg {
        -v
    } else {
        v
    };
    if signed_v < -2147483648 || signed_v > 2147483647 {
        None
    } else {
        Some(signed_v as i32)
    }
}

// ---------------------------------------------------------------------------
// Bounds of a node
// ---------------------------------------------------------------------------

/// Characters that separate the numbers of a `bounds` attribute: anything
/// but a digit or `-`.
pub open spec fn bound_sep(c: char) -> bool {
    !is_digit(c) && c != '-'
}

/// The fields of `s` between separators.
pub open spec fn bound_fields(s: Seq<char>) -> Seq<Seq<char>>
    decreases s.len(),
{
    if s.len() == 0 {
        seq![Seq::empty()]
    } else if bound_sep(s.last()) {
        bound_fields(s.drop_last()).push(Seq::empty())
    } else {
        let p = bound_fields(s.drop_last());
        p.update(p.len() - 1, p.last().push(s.last()))
    }
}

proof fn lemma_bound_fields_nonempty(s: Seq<char>)
    ensures
        bound_fields(s).len() >= 1,
    decreases s.len(),
{
    if s.len() > 0 {
        lemma_bound_fields_nonempty(s.drop_last());
    }
}

/// The non-empty fields that read as `i32`, read.
pub open spec fn field_numbers(fs: Seq<Seq<char>>) -> Seq<int>
    decreases fs.len(),
{
    if fs.len() == 0 {
        Seq::empty()
    } else {
        let prev = field_numbers(fs.drop_last());
        let f = fs.last();
        if f.len() > 0 && i32_text(f) is Some {
            prev.push(i32_text(f)->0)
        } else {
            prev
        }
    }
}

/// The numbers of a `bounds` attribute such as `[0,84][1080,220]`.
pub open spec fn bounds_numbers(s: Seq<char>) -> Seq<int> {
    field_numbers(bound_fields(s))
}

fn push_number(nums: &mut Vec<i32>, field: &Vec<char>)
    ensures
        nums_view(final(nums)@) == nums_view(old(nums)@) + field_numbers(seq![field@]),
{
    let ghost before = nums_view(nums@);
    assert(seq![field@].drop_last() =~= Seq::<Seq<char>>::empty());
    assert(seq![field@].last() == field@);
    assert(field_numbers(Seq::<Seq<char>>::empty()) =~= Seq::<int>::empty());
    if field.len() > 0 {
        match parse_i32(field) {
            Some(v) => {
                nums.push(v);
                assert(field_numbers(seq![field@]) =~= seq![v as int]);
                assert(nums_view(nums@) =~= before + seq![v as int]);
            },
            None => {
                assert(nums_view(nums@) =~= before + Seq::<int>::empty());
            },
        }
    } else {
        assert(nums_view(nums@) =~= before + Seq::<int>::empty());
    }
}

pub open spec fn nums_view(v: Seq<i32>) -> Seq<int> {
    v.map_values(|x: i32| x as int)
}

proof fn lemma_field_numbers_concat(a: Seq<Seq<char>>, f: Seq<char>)
    ensures
        field_numbers(a.push(f)) == field_numbers(a) + field_numbers(seq![f]),
{
    assert(a.push(f).drop_last() =~= a);
    assert(seq![f].drop_last() =~= Seq::<Seq<char>>::empty());
    assert(field_numbers(Seq::<Seq<char>>::empty()) =~= Seq::<int>::empty());
    let x = field_numbers(a);
    assert(x + Seq::<int>::empty() =~= x);
    if f.len() > 0 && i32_text(f) is Some {
        assert(x.push(i32_text(f)->0) =~= x + seq![i32_text(f)->0]);
        assert(Seq::<int>::empty().push(i32_text(f)->0) =~= seq![i32_text(f)->0]);
    }
}

/// Reads the numbers of a `bounds` attribute.
pub fn bounds_number_list(b: &Vec<char>) -> (r: Vec<i32>)
    ensures
        nums_view(r@) == bounds_numbers(b@),
{
    let mut nums: Vec<i32> = Vec::new();
    let mut cur: Vec<char> = Vec::new();
    let mut i: usize = 0;
    assert(b@.subrange(0, 0) =~= Seq::<char>::empty());
    assert(nums_view(nums@) =~= field_numbers(Seq::<Seq<char>>::empty()));
    while i < b.len()
        invariant
            i <= b.len(),
            bound_fields(b@.subrange(0, i as int)).len() >= 1,
            nums_view(nums@) == field_numbers(bound_fields(b@.subrange(0, i as int)).drop_last()),
            cur@ == bound_fields(b@.subrange(0, i as int)).last(),
        decreases b.len() - i,
    {
        let c = b[i];
        let ghost pre = b@.subrange(0, i as int);
        let ghost fs = bound_fields(pre);
        proof {
            let p = b@.subrange(0, i + 1);
            assert(p.drop_last() =~= pre);
            assert(p.last() == c);
            lemma_bound_fields_nonempty(pre);
        }
        if !is_ascii_digit(c) && c != '-' {
            push_number(&mut nums, &cur);
            proof {
                assert(fs.drop_last().push(fs.last()) =~= fs);
                lemma_field_numbers_concat(fs.drop_last(), fs.last());
                assert(fs.push(Seq::empty()).drop_last() =~= fs);
            }
            cur = Vec::new();
        } else {
            cur.push(c);
            proof {
                let nf = fs.update(fs.len() - 1, fs.last().push(c));
                assert(nf.drop_last() =~= fs.drop_last());
            }
        }
        i = i + 1;
    }
    assert(b@.subrange(0, i as int) =~= b@);
    let ghost fs = bound_fields(b@);
    push_number(&mut nums, &cur);
    proof {
        assert(fs.drop_last().push(fs.last()) =~= fs);
        lemma_field_numbers_concat(fs.drop_last(), fs.last());
    }
    nums
}

pub open spec fn attr_i32(node: Seq<char>, attr: Seq<char>) -> Option<int> {
    match attr_value(node, attr) {
        Some(v) => i32_text(v),
        None => None,
    }
}

/// The bounds of a node in device pixels: its `x`, `y`, `width` and
/// `height` attributes when all four read as integers, else the corners of
/// its `bounds="[x1,y1][x2,y2]"` attribute, else nothing (all zero).
pub open spec fn node_bounds(node: Seq<char>) -> (int, int, int, int) {
    match (attr_i32(node, "x"@), attr_i32(node, "y"@), attr_i32(node, "width"@), attr_i32(node, "height"@)) {
        (Some(x), Some(y), Some(w), Some(h)) => (x, y, w, h),
        _ => match attr_value(node, "bounds"@) {
            Some(b) => {
                let n = bounds_numbers(b);
                if n.len() >= 4 {
                    (n[0], n[1], n[2] - n[0], n[3] - n[1])
                } else {
                    (0, 0, 0, 0)
                }
            },
            None => (0, 0, 0, 0),
        },
    }
}

fn attr_number(node: &str, attr: &str) -> (r: Option<i32>)
    ensures
        r matches Some(v) ==> attr_i32(node@, attr@) == Some(v as int),
        r is None ==> attr_i32(node@, attr@) is None,
{
    match extract_attr(node, attr) {
        Some(v) => parse_i32(&chars_of(v.as_str())),
        None => None,
    }
}

/// Reads the bounds of a node: WDA attributes first, then uiautomator's
/// `bounds`.
pub fn parse_bounds_from_node(node: &str) -> (r: (i64, i64, i64, i64))
    ensures
        (r.0 as int, r.1 as int, r.2 as int, r.3 as int) == node_bounds(node@),
{
    let x = attr_number(node, "x");
    let y = attr_number(node, "y");
    let w = attr_number(node, "width");
    let h = attr_number(node, "height");
    match (x, y, w, h) {
        (Some(x), Some(y), Some(w), Some(h)) => {
            return (x as i64, y as i64, w as i64, h as i64);
        },
        _ => {},
    }
    match extract_attr(node, "bounds") {
        Some(b) => {
            let nums = bounds_number_list(&chars_of(b.as_str()));
            if nums.len() >= 4 {
                assert(nums_view(nums@)[0] == nums@[0] as int);
                assert(nums_view(nums@)[1] == nums@[1] as int);
                assert(nums_view(nums@)[2] == nums@[2] as int);
                assert(nums_view(nums@)[3] == nums@[3] as int);
                (
                    nums[0] as i64,
                    nums[1] as i64,
                    nums[2] as i64 - nums[0] as i64,
                    nums[3] as i64 - nums[1] as i64,
                )
            } else {
                (0, 0, 0, 0)
            }
        },
        None => (0, 0, 0, 0),
    }
}

// ---------------------------------------------------------------------------
// uiautomator / XCUI XML
// ---------------------------------------------------------------------------

pub open spec fn node_tag() -> Seq<char> {
    seq!['<', 'n', 'o', 'd', 'e', ' ']
}

pub open spec fn xcui_tag() -> Seq<char> {
    seq!['<', 'X', 'C', 'U', 'I', 'E', 'l', 'e', 'm', 'e', 'n', 't', 'T', 'y', 'p', 'e']
}

/// Where the next node starts at or after `pos`: the nearer of `<node `
/// and `<XCUIElementType`.
pub open spec fn node_start(s: Seq<char>, pos: int) -> Option<int> {
    match (find_from(s, node_tag(), pos), find_from(s, xcui_tag(), pos)) {
        (Some(a), Some(b)) => Some(if a <= b { a } else { b }),
        (Some(a), None) => Some(a),
        (None, Some(b)) => Some(b),
        (None, None) => None,
    }
}

pub proof fn lemma_node_start(s: Seq<char>, pos: int)
    requires
        0 <= pos,
    ensures
        node_start(s, pos) matches Some(st) ==> pos <= st < s.len(),
{
    lemma_find_from_props(s, node_tag(), pos);
    lemma_find_from_props(s, xcui_tag(), pos);
}

pub open spec fn attr_or_empty(node: Seq<char>, attr: Seq<char>) -> Seq<char> {
    match attr_value(node, attr) {
        Some(v) => v,
        None => Seq::empty(),
    }
}

/// The label of a node: its first non-empty `text`, `label`,
/// `content-desc` or `value`; a node without one is skipped.
pub open spec fn node_label(node: Seq<char>) -> Option<Seq<char>> {
    let text = attr_or_empty(node, "text"@);
    let label = attr_or_empty(node, "label"@);
    let desc = attr_or_empty(node, "content-desc"@);
    let value = attr_or_empty(node, "value"@);
    if text.len() > 0 {
        Some(text)
    } else if label.len() > 0 {
        Some(label)
    } else if desc.len() > 0 {
        Some(desc)
    } else if value.len() > 0 {
        Some(value)
    } else {
        None
    }
}

/// The class of a node: its `class`, else its `type`, else nothing.
pub open spec fn node_class(node: Seq<char>) -> Seq<char> {
    match attr_value(node, "class"@) {
        Some(c) => c,
        None => attr_or_empty(node, "type"@),
    }
}

pub open spec fn node_element(node: Seq<char>, label: Seq<char>) -> A11ySpec {
    let b = node_bounds(node);
    A11ySpec { text: label, class: node_class(node), x: b.0, y: b.1, w: b.2, h: b.3 }
}

/// The labelled nodes of an XML dump from position `pos` on, in order.
pub open spec fn xml_elements(s: Seq<char>, pos: int) -> Seq<A11ySpec>
    decreases s.len() - pos,
{
    if pos < 0 || pos >= s.len() {
        Seq::empty()
    } else {
        match node_start(s, pos) {
            None => Seq::empty(),
            Some(st) => {
                proof {
                    lemma_node_start(s, pos);
                    lemma_first_index_from_props(s, '>', st);
                }
                match first_index_from(s, '>', st) {
                    None => xml_elements(s, st + 1),
                    Some(end) => {
                        let node = s.subrange(st, end + 1);
                        match node_label(node) {
                            None => xml_elements(s, end + 1),
                            Some(l) => seq![node_element(node, l)] + xml_elements(s, end + 1),
                        }
                    },
                }
            },
        }
    }
}

fn attr_text(node: &str, attr: &str) -> (r: String)
    ensures
        r@ == attr_or_empty(node@, attr@),
{
    match extract_attr(node, attr) {
        Some(v) => v,
        None => String::new(),
    }
}

fn node_element_of(node: &str) -> (r: Option<A11yElement>)
    ensures
        match r {
            Some(e) => node_label(node@) matches Some(l) && e@ == node_element(node@, l),
            None => node_label(node@) is None,
        },
{
    let text = attr_text(node, "text");
    let label_attr = attr_text(node, "label");
    let content_desc = attr_text(node, "content-desc");
    let value_attr = attr_text(node, "value");
    let class = match extract_attr(node, "class") {
        Some(c) => c,
        None => attr_text(node, "type"),
    };
    let label = if !text.as_str().is_empty() {
        text
    } else if !label_attr.as_str().is_empty() {
        label_attr
    } else if !content_desc.as_str().is_empty() {
        content_desc
    } else if !value_attr.as_str().is_empty() {
        value_attr
    } else {
        return None;
    };
    let (x, y, w, h) = parse_bounds_from_node(node);
    Some(A11yElement { text: label, class, x, y, w, h })
}

fn first_node_start(s: &Vec<char>, pos: usize) -> (r: Option<usize>)
    ensures
        r matches Some(st) ==> node_start(s@, pos as int) == Some(st as int),
        r is None ==> node_start(s@, pos as int) is None,
{
    let node = vec!['<', 'n', 'o', 'd', 'e', ' '];
    let xcui = vec!['<', 'X', 'C', 'U', 'I', 'E', 'l', 'e', 'm', 'e', 'n', 't', 'T', 'y', 'p', 'e'];
    assert(node@ =~= node_tag());
    assert(xcui@ =~= xcui_tag());
    let a = find_seq_from(s, &node, pos);
    let b = find_seq_from(s, &xcui, pos);
    match (a, b) {
        (Some(a), Some(b)) => Some(if a <= b { a } else { b }),
        (Some(a), None) => Some(a),
        (None, Some(b)) => Some(b),
        (None, None) => None,
    }
}

/// Reads the labelled nodes of a uiautomator or XCUI XML dump.
pub fn parse_uiautomator_xml(xml: &str) -> (r: Result<Vec<A11yElement>, String>)
    ensures
        r matches Ok(v) && a11y_view(v@) == xml_elements(xml@, 0),
{
    let s = chars_of(xml);
    let mut elements: Vec<A11yElement> = Vec::new();
    let mut pos: usize = 0;
    assert(a11y_view(elements@) + xml_elements(s@, 0) =~= xml_elements(s@, 0));
    while pos < s.len()
        invariant
            pos <= s.len(),
            s@ == xml@,
            pos >= s.len() ==> xml_elements(s@, pos as int) == Seq::<A11ySpec>::empty(),
            a11y_view(elements@) + xml_elements(s@, pos as int) == xml_elements(s@, 0),
        ensures
            a11y_view(elements@) == xml_elements(s@, 0),
        decreases s.len() - pos,
    {
        let ghost before = a11y_view(elements@);
        match first_node_start(&s, pos) {
            None => {
                assert(xml_elements(s@, pos as int) =~= Seq::<A11ySpec>::empty());
                assert(before + Seq::<A11ySpec>::empty() =~= before);
                break;
            },
            Some(st) => {
                proof {
                    lemma_node_start(s@, pos as int);
                    lemma_first_index_from_props(s@, '>', st as int);
                }
                match find_char_from(&s, '>', st) {
                    None => {
                        pos = st + 1;
                    },
                    Some(end) => {
                        let node_chars = subvec(&s, st, end + 1);
                        let node_str = string_of(&node_chars);
                        match node_element_of(node_str.as_str()) {
                            None => {},
                            Some(e) => {
                                elements.push(e);
                                assert(a11y_view(elements@) =~= before.push(e@));
                                assert(before.push(e@) + xml_elements(s@, end + 1) =~= before + (seq![e@]
                                    + xml_elements(s@, end + 1)));
                            },
                        }
                        pos = end + 1;
                    },
                }
            },
        }
    }
    Ok(elements)
}

// ---------------------------------------------------------------------------
// WebDriverAgent JSON
// ---------------------------------------------------------------------------

/// A JSON value, holding what the dump reader looks at: numbers as the
/// `i64` they equal (none for a fraction or a number out of range), and
/// objects as their entries, each key once.
pub enum JsonValue {
    Null,
    Bool(bool),
    Number(Option<i64>),
    Str(String),
    Array(Vec<JsonValue>),
    Object(Vec<(String, JsonValue)>),
}

/// Position of the entry with key `key`.
pub open spec fn entry_index(entries: Seq<(String, JsonValue)>, key: Seq<char>, from: int) -> Option<int>
    decreases entries.len() - from,
{
    if from < 0 || from >= entries.len() {
        None
    } else if entries[from].0@ == key {
        Some(from)
    } else {
        entry_index(entries, key, from + 1)
    }
}

pub proof fn lemma_entry_index(entries: Seq<(String, JsonValue)>, key: Seq<char>, from: int)
    requires
        0 <= from,
    ensures
        entry_index(entries, key, from) matches Some(k) ==> from <= k < entries.len() && entries[k].0@ == key,
    decreases entries.len() - from,
{
    if from < entries.len() && entries[from].0@ != key {
        lemma_entry_index(entries, key, from + 1);
    }
}

/// The value under `key`, if the object has it.
pub open spec fn obj_get(entries: Seq<(String, JsonValue)>, key: Seq<char>) -> Option<JsonValue> {
    match entry_index(entries, key, 0) {
        Some(k) => Some(entries[k].1),
        None => None,
    }
}

/// The value under the first of `k1`, `k2`, `k3` that the object has.
pub open spec fn obj_get_first(entries: Seq<(String, JsonValue)>, k1: Seq<char>, k2: Seq<char>, k3: Option<Seq<char>>) -> Option<JsonValue> {
    match obj_get(entries, k1) {
        Some(v) => Some(v),
        None => match obj_get(entries, k2) {
            Some(v) => Some(v),
            None => match k3 {
                Some(k) => obj_get(entries, k),
                None => None,
            },
        },
    }
}

pub open spec fn json_str(v: Option<JsonValue>) -> Seq<char> {
    match v {
        Some(JsonValue::Str(s)) => s@,
        _ => Seq::empty(),
    }
}

/// An integer entry as `i32` (the low 32 bits of its `i64`), 0 when absent
/// or not an integer.
pub open spec fn json_coord(entries: Seq<(String, JsonValue)>, key: Seq<char>) -> int {
    match obj_get(entries, key) {
        Some(JsonValue::Number(Some(n))) => (n as i32) as int,
        _ => 0,
    }
}

/// The element an object of the dump describes, if it has a label.
pub open spec fn wda_element(entries: Seq<(String, JsonValue)>) -> Seq<A11ySpec> {
    let label = json_str(obj_get_first(entries, "label"@, "name"@, Some("value"@)));
    let class = json_str(obj_get_first(entries, "type"@, "elementType"@, None));
    if label.len() > 0 {
        seq![
            A11ySpec {
                text: label,
                class,
                x: json_coord(entries, "x"@),
                y: json_coord(entries, "y"@),
                w: json_coord(entries, "width"@),
                h: json_coord(entries, "height"@),
            },
        ]
    } else {
        Seq::empty()
    }
}

/// The labelled elements of a dump, depth first: an object's own element,
/// then those of its `children` array; an array's items in order.
pub open spec fn wda_elements(v: JsonValue) -> Seq<A11ySpec>
    decreases v,
{
    match v {
        JsonValue::Object(entries) => {
            let own = wda_element(entries@);
            match entry_index(entries@, "children"@, 0) {
                Some(k) => {
                    proof {
                        lemma_entry_index(entries@, "children"@, 0);
                    }
                    match entries@[k].1 {
                        JsonValue::Array(items) => own + wda_list(items@),
                        _ => own,
                    }
                },
                None => own,
            }
        },
        JsonValue::Array(items) => wda_list(items@),
        _ => Seq::empty(),
    }
}

pub open spec fn wda_list(items: Seq<JsonValue>) -> Seq<A11ySpec>
    decreases items,
{
    if items.len() == 0 {
        Seq::empty()
    } else {
        wda_list(items.drop_last()) + wda_elements(items.last())
    }
}

fn entry_lookup(entries: &Vec<(String, JsonValue)>, key: &str) -> (r: Option<usize>)
    ensures
        r matches Some(k) ==> entry_index(entries@, key@, 0) == Some(k as int),
        r is None ==> entry_index(entries@, key@, 0) is None,
{
    let mut i: usize = 0;
    while i < entries.len()
        invariant
            i <= entries@.len(),
            entry_index(entries@, key@, 0) == entry_index(entries@, key@, i as int),
        decreases entries@.len() - i,
    {
        if crate::text::str_eq(entries[i].0.as_str(), key) {
            return Some(i);
        }
        i = i + 1;
    }
    None
}

fn lookup<'a>(entries: &'a Vec<(String, JsonValue)>, key: &str) -> (r: Option<&'a JsonValue>)
    ensures
        match r {
            Some(v) => obj_get(entries@, key@) == Some(*v),
            None => obj_get(entries@, key@) is None,
        },
{
    match entry_lookup(entries, key) {
        Some(k) => {
            proof {
                lemma_entry_index(entries@, key@, 0);
            }
            Some(&entries[k].1)
        },
        None => None,
    }
}

fn string_value(v: Option<&JsonValue>) -> (r: String)
    ensures
        r@ == json_str(match v {
            Some(x) => Some(*x),
            None => None,
        }),
{
    match v {
        Some(JsonValue::Str(s)) => s.clone(),
        _ => String::new(),
    }
}

fn coord_value(entries: &Vec<(String, JsonValue)>, key: &str) -> (r: i64)
    ensures
        r == json_coord(entries@, key@),
{
    match lookup(entries, key) {
        Some(JsonValue::Number(Some(n))) => {
            #[verifier::truncate]
            let c = (*n as i32);
            c as i64
        },
        _ => 0,
    }
}

fn own_element(entries: &Vec<(String, JsonValue)>, out: &mut Vec<A11yElement>)
    ensures
        a11y_view(final(out)@) == a11y_view(old(out)@) + wda_element(entries@),
{
    let l1 = lookup(entries, "label");
    let l = match l1 {
        Some(v) => Some(v),
        None => match lookup(entries, "name") {
            Some(v) => Some(v),
            None => lookup(entries, "value"),
        },
    };
    let label = string_value(l);
    let t = match lookup(entries, "type") {
        Some(v) => Some(v),
        None => lookup(entries, "elementType"),
    };
    let class = string_value(t);
    let ghost before = a11y_view(out@);
    if !label.as_str().is_empty() {
        let e = A11yElement {
            text: label,
            class,
            x: coord_value(entries, "x"),
            y: coord_value(entries, "y"),
            w: coord_value(entries, "width"),
            h: coord_value(entries, "height"),
        };
        out.push(e);
        assert(a11y_view(out@) =~= before + seq![e@]);
    } else {
        assert(a11y_view(out@) =~= before + Seq::<A11ySpec>::empty());
    }
}

fn collect_list(items: &Vec<JsonValue>, out: &mut Vec<A11yElement>)
    ensures
        a11y_view(final(out)@) == a11y_view(old(out)@) + wda_list(items@),
    decreases items@, 1nat,
{
    let ghost start = a11y_view(out@);
    let mut i: usize = 0;
    assert(items@.subrange(0, 0) =~= Seq::<JsonValue>::empty());
    assert(start + Seq::<A11ySpec>::empty() =~= start);
    while i < items.len()
        invariant
            i <= items@.len(),
            a11y_view(out@) == start + wda_list(items@.subrange(0, i as int)),
        decreases items@.len() - i,
    {
        let ghost mid = a11y_view(out@);
        proof {
            let p = items@.subrange(0, i + 1);
            assert(p.drop_last() =~= items@.subrange(0, i as int));
            assert(p.last() == items@[i as int]);
        }
        collect_wda_elements(&items[i], out);
        i = i + 1;
    }
    assert(items@.subrange(0, i as int) =~= items@);
}

/// Appends the labelled elements of a WebDriverAgent dump, depth first.
pub fn collect_wda_elements(value: &JsonValue, out: &mut Vec<A11yElement>)
    ensures
        a11y_view(final(out)@) == a11y_view(old(out)@) + wda_elements(*value),
    decreases *value, 0nat,
{
    let ghost start = a11y_view(out@);
    match value {
        JsonValue::Object(entries) => {
            own_element(entries, out);
            match entry_lookup(entries, "children") {
                Some(k) => {
                    proof {
                        lemma_entry_index(entries@, "children"@, 0);
                    }
                    match &entries[k].1 {
                        JsonValue::Array(items) => {
                            collect_list(items, out);
                        },
                        _ => {},
                    }
                },
                None => {},
            }
        },
        JsonValue::Array(items) => {
            collect_list(items, out);
        },
        _ => {
            assert(a11y_view(out@) =~= start + Seq::<A11ySpec>::empty());
        },
    }
}

// ---------------------------------------------------------------------------
// Exclusions
// ---------------------------------------------------------------------------

/// A dp quantity in device pixels: the product with the density truncated
/// toward zero, held within the range of `i32`.
pub open spec fn to_px(v: int, density: int) -> int {
    let p = v * density;
    let q = if p >= 0 {
        p / 1_000_000
    } else {
        -((-p) / 1_000_000)
    };
    if q > i32::MAX {
        i32::MAX as int
    } else if q < i32::MIN {
        i32::MIN as int
    } else {
        q
    }
}

/// Converts a dp quantity to device pixels at a density (in millionths).
pub fn px(v: i64, density: Micro) -> (r: i64)
    ensures
        r == to_px(v as int, density as int),
{
    assert(-0x4000_0000_0000_0000_0000_0000_0000_0000 <= (v as int) * (density as int)
        <= 0x4000_0000_0000_0000_0000_0000_0000_0000) by (nonlinear_arith)
        requires
            -0x8000_0000_0000_0000 <= v <= 0x7fff_ffff_ffff_ffff,
            -0x8000_0000_0000_0000 <= density <= 0x7fff_ffff_ffff_ffff,
    ;
    let p: i128 = v as i128 * density as i128;
    let q: i128 = if p >= 0 {
        p / 1_000_000
    } else {
        -((-p) / 1_000_000)
    };
    if q > 2147483647 {
        2147483647
    } else if q < -2147483648 {
        -2147483648
    } else {
        q as i64
    }
}

/// The viewport of a capture in dp and its density: the declared viewport,
/// else the size of the first element (else 400×900); density 3 unless a
/// positive one is declared.
pub open spec fn viewport_of(schema: SemanticSchema) -> (int, int, int) {
    let first = if schema.elements@.len() > 0 {
        Some(schema.elements@[0].bounds)
    } else {
        None
    };
    let w = match schema.viewport {
        Some(v) => v.width as int,
        None => match first {
            Some(b) => b.w as int,
            None => 400,
        },
    };
    let h = match schema.viewport {
        Some(v) => v.height as int,
        None => match first {
            Some(b) => b.h as int,
            None => 900,
        },
    };
    let d = match schema.viewport {
        Some(v) => if v.density > 0 {
            v.density as int
        } else {
            3_000_000
        },
        None => 3_000_000,
    };
    (w, h, d)
}

/// The viewport of a capture in dp and its density, in millionths.
pub fn viewport_dims(schema: &SemanticSchema) -> (r: (i64, i64, i64))
    ensures
        (r.0 as int, r.1 as int, r.2 as int) == viewport_of(*schema),
{
    let w: i64 = match &schema.viewport {
        Some(v) => v.width as i64,
        None => if schema.elements.len() > 0 {
            schema.elements[0].bounds.w as i64
        } else {
            400
        },
    };
    let h: i64 = match &schema.viewport {
        Some(v) => v.height as i64,
        None => if schema.elements.len() > 0 {
            schema.elements[0].bounds.h as i64
        } else {
            900
        },
    };
    let d: i64 = match &schema.viewport {
        Some(v) => if v.density > 0 {
            v.density
        } else {
            3_000_000
        },
        None => 3_000_000,
    };
    (w, h, d)
}

pub open spec fn onscreen(e: A11ySpec, max_x: int, max_y: int) -> bool {
    e.x >= 0 && e.y >= 0 && e.x < max_x && e.y < max_y
}

fn copy_element(e: &A11yElement) -> (r: A11yElement)
    ensures
        r@ == e@,
{
    A11yElement { text: e.text.clone(), class: e.class.clone(), x: e.x, y: e.y, w: e.w, h: e.h }
}

/// Keeps the elements whose top-left corner lies inside the screen.
pub fn exclude_offscreen(elems: &Vec<A11yElement>, max_x: i64, max_y: i64) -> (r: Vec<A11yElement>)
    ensures
        a11y_view(r@) == a11y_view(elems@).filter(|e: A11ySpec| onscreen(e, max_x as int, max_y as int)),
{
    let ghost f = |e: A11ySpec| onscreen(e, max_x as int, max_y as int);
    let ghost all = a11y_view(elems@);
    let mut out: Vec<A11yElement> = Vec::new();
    let mut i: usize = 0;
    proof {
        reveal(Seq::filter);
        assert(all.subrange(0, 0) =~= Seq::<A11ySpec>::empty());
    }
    while i < elems.len()
        invariant
            i <= elems@.len(),
            all == a11y_view(elems@),
            f == (|e: A11ySpec| onscreen(e, max_x as int, max_y as int)),
            a11y_view(out@) == all.subrange(0, i as int).filter(f),
        decreases elems@.len() - i,
    {
        let e = &elems[i];
        let ghost before = a11y_view(out@);
        proof {
            reveal(Seq::filter);
            let p = all.subrange(0, i + 1);
            assert(p.drop_last() =~= all.subrange(0, i as int));
            assert(p.last() == e@);
        }
        if e.x >= 0 && e.y >= 0 && e.x < max_x && e.y < max_y {
            out.push(copy_element(e));
            assert(a11y_view(out@) =~= before.push(e@));
        }
        i = i + 1;
    }
    assert(all.subrange(0, i as int) =~= all);
    out
}

/// A rectangle, as left, top, right and bottom edges.
pub type Rect = (i64, i64, i64, i64);

pub open spec fn rect_of(e: SemanticElement, density: int) -> (int, int, int, int) {
    let b = e.bounds;
    (
        to_px(b.x as int, density),
        to_px(b.y as int, density),
        to_px(b.x + b.w, density),
        to_px(b.y + b.h, density),
    )
}

pub open spec fn is_external(e: SemanticElement) -> bool {
    e.render matches Some(r) && r@ == "external"@
}

/// The device-pixel rectangles of the elements rendered by an external
/// surface (a map, a web view), in order.
pub open spec fn external_rects(es: Seq<SemanticElement>, density: int) -> Seq<(int, int, int, int)>
    decreases es.len(),
{
    if es.len() == 0 {
        Seq::empty()
    } else {
        let p = external_rects(es.drop_last(), density);
        if is_external(es.last()) {
            p.push(rect_of(es.last(), density))
        } else {
            p
        }
    }
}

pub open spec fn rects_view(rs: Seq<Rect>) -> Seq<(int, int, int, int)> {
    rs.map_values(|r: Rect| (r.0 as int, r.1 as int, r.2 as int, r.3 as int))
}

/// The rectangles of the externally rendered elements of a capture.
pub fn external_rect_list(es: &Vec<SemanticElement>, density: Micro) -> (r: Vec<Rect>)
    ensures
        rects_view(r@) == external_rects(es@, density as int),
{
    let mut out: Vec<Rect> = Vec::new();
    let mut i: usize = 0;
    assert(es@.subrange(0, 0) =~= Seq::<SemanticElement>::empty());
    assert(rects_view(out@) =~= Seq::<(int, int, int, int)>::empty());
    while i < es.len()
        invariant
            i <= es@.len(),
            rects_view(out@) == external_rects(es@.subrange(0, i as int), density as int),
        decreases es@.len() - i,
    {
        let e = &es[i];
        proof {
            let p = es@.subrange(0, i + 1);
            assert(p.drop_last() =~= es@.subrange(0, i as int));
            assert(p.last() == *e);
        }
        let external = match &e.render {
            Some(r) => crate::text::str_eq(r.as_str(), "external"),
            None => false,
        };
        if external {
            let b = e.bounds;
            let rect = (
                px(b.x as i64, density),
                px(b.y as i64, density),
                px(b.x as i64 + b.w as i64, density),
                px(b.y as i64 + b.h as i64, density),
            );
            let ghost before = out@;
            out.push(rect);
            assert(rects_view(out@) =~= rects_view(before).push(
                (rect.0 as int, rect.1 as int, rect.2 as int, rect.3 as int),
            ));
        }
        i = i + 1;
    }
    assert(es@.subrange(0, i as int) =~= es@);
    out
}

pub open spec fn external_classes() -> Seq<Seq<char>> {
    seq![
        "Map"@,
        "MapView"@,
        "MKMapView"@,
        "XCUIElementTypeMap"@,
        "WebView"@,
        "WKWebView"@,
        "XCUIElementTypeWebView"@,
    ]
}

pub open spec fn map_child_texts() -> Seq<Seq<char>> {
    seq!["Map pin"@, "Legal"@, "Map Marker"@, "Google Map"@]
}

pub open spec fn inside(e: A11ySpec, r: (int, int, int, int)) -> bool {
    e.x >= r.0 && e.y >= r.1 && e.x + e.w <= r.2 && e.y + e.h <= r.3
}

/// An element stays unless its class names a map or web view, its text is
/// one that map surfaces show, or it lies inside an external rectangle.
pub open spec fn not_external(e: A11ySpec, rects: Seq<(int, int, int, int)>) -> bool {
    &&& !(exists|k: int| 0 <= k < external_classes().len() && crate::text::seq_contains(e.class, #[trigger] external_classes()[k]))
    &&& !map_child_texts().contains(e.text)
    &&& !(exists|k: int| 0 <= k < rects.len() && inside(e, #[trigger] rects[k]))
}

fn any_substring(s: &str, pats: &Vec<&str>) -> (r: bool)
    ensures
        r == exists|k: int| 0 <= k < pats@.len() && crate::text::seq_contains(s@, #[trigger] pats.deep_view()[k]),
{
    let v = chars_of(s);
    let mut k: usize = 0;
    while k < pats.len()
        invariant
            k <= pats@.len(),
            v@ == s@,
            forall|j: int| 0 <= j < k ==> !crate::text::seq_contains(s@, #[trigger] pats.deep_view()[j]),
        decreases pats@.len() - k,
    {
        let p = chars_of(pats[k]);
        if crate::text::contains(&v, &p) {
            assert(pats.deep_view()[k as int] == p@);
            return true;
        }
        assert(pats.deep_view()[k as int] == p@);
        k = k + 1;
    }
    false
}

fn any_equal(s: &str, texts: &Vec<&str>) -> (r: bool)
    ensures
        r == texts.deep_view().contains(s@),
{
    let mut k: usize = 0;
    while k < texts.len()
        invariant
            k <= texts@.len(),
            forall|j: int| 0 <= j < k ==> #[trigger] texts.deep_view()[j] != s@,
        decreases texts@.len() - k,
    {
        if crate::text::str_eq(texts[k], s) {
            assert(texts.deep_view()[k as int] == s@);
            return true;
        }
        assert(texts.deep_view()[k as int] == texts@[k as int]@);
        k = k + 1;
    }
    false
}

fn inside_any(e: &A11yElement, rects: &Vec<Rect>) -> (r: bool)
    ensures
        r == exists|k: int| 0 <= k < rects@.len() && inside(e@, #[trigger] rects_view(rects@)[k]),
{
    let mut k: usize = 0;
    while k < rects.len()
        invariant
            k <= rects@.len(),
            forall|j: int| 0 <= j < k ==> !inside(e@, #[trigger] rects_view(rects@)[j]),
        decreases rects@.len() - k,
    {
        let (rx, ry, rr, rb) = rects[k];
        assert(rects_view(rects@)[k as int] == (rx as int, ry as int, rr as int, rb as int));
        if e.x >= rx && e.y >= ry && e.x as i128 + e.w as i128 <= rr as i128 && e.y as i128 + e.h as i128
            <= rb as i128 {
            return true;
        }
        k = k + 1;
    }
    false
}

/// Drops the elements that belong to external render surfaces.
pub fn exclude_external(elems: &Vec<A11yElement>, rects: &Vec<Rect>) -> (r: Vec<A11yElement>)
    ensures
        a11y_view(r@) == a11y_view(elems@).filter(|e: A11ySpec| not_external(e, rects_view(rects@))),
{
    let classes: Vec<&str> = vec![
        "Map",
        "MapView",
        "MKMapView",
        "XCUIElementTypeMap",
        "WebView",
        "WKWebView",
        "XCUIElementTypeWebView",
    ];
    let map_texts: Vec<&str> = vec!["Map pin", "Legal", "Map Marker", "Google Map"];
    assert(classes.deep_view() =~= external_classes());
    assert(map_texts.deep_view() =~= map_child_texts());
    let ghost rv = rects_view(rects@);
    let ghost f = |e: A11ySpec| not_external(e, rv);
    let ghost all = a11y_view(elems@);
    let mut out: Vec<A11yElement> = Vec::new();
    let mut i: usize = 0;
    proof {
        reveal(Seq::filter);
        assert(all.subrange(0, 0) =~= Seq::<A11ySpec>::empty());
    }
    while i < elems.len()
        invariant
            i <= elems@.len(),
            all == a11y_view(elems@),
            rv == rects_view(rects@),
            classes.deep_view() == external_classes(),
            map_texts.deep_view() == map_child_texts(),
            f == (|e: A11ySpec| not_external(e, rv)),
            a11y_view(out@) == all.subrange(0, i as int).filter(f),
        decreases elems@.len() - i,
    {
        let e = &elems[i];
        let ghost before = a11y_view(out@);
        proof {
            reveal(Seq::filter);
            let p = all.subrange(0, i + 1);
            assert(p.drop_last() =~= all.subrange(0, i as int));
            assert(p.last() == e@);
        }
        let ext_class = any_substring(e.class.as_str(), &classes);
        let map_child = any_equal(e.text.as_str(), &map_texts);
        let in_rect = inside_any(e, rects);
        if !ext_class && !map_child && !in_rect {
            out.push(copy_element(e));
            assert(a11y_view(out@) =~= before.push(e@));
        }
        i = i + 1;
    }
    assert(all.subrange(0, i as int) =~= all);
    out
}

// ---------------------------------------------------------------------------
// The comparison
// ---------------------------------------------------------------------------

/// The normalised, non-empty contents of the capture's elements, in order.
pub open spec fn content_norms(es: Seq<SemanticElement>) -> Seq<Seq<char>>
    decreases es.len(),
{
    if es.len() == 0 {
        Seq::empty()
    } else {
        let p = content_norms(es.drop_last());
        match es.last().content {
            Some(c) => if normalized_text(c@).len() > 0 {
                p.push(normalized_text(c@))
            } else {
                p
            },
            None => p,
        }
    }
}

/// The normalised, non-empty texts of the dump's elements, in order.
pub open spec fn text_norms(a: Seq<A11ySpec>) -> Seq<Seq<char>>
    decreases a.len(),
{
    if a.len() == 0 {
        Seq::empty()
    } else {
        let p = text_norms(a.drop_last());
        let n = normalized_text(a.last().text);
        if n.len() > 0 {
            p.push(n)
        } else {
            p
        }
    }
}

/// Each text once, in the order of first occurrence.
pub open spec fn dedup(s: Seq<Seq<char>>) -> Seq<Seq<char>>
    decreases s.len(),
{
    if s.len() == 0 {
        Seq::empty()
    } else {
        let d = dedup(s.drop_last());
        if d.contains(s.last()) {
            d
        } else {
            d.push(s.last())
        }
    }
}

/// For the first `n` dump elements: the positions of those whose text the
/// capture has, and of those whose text it lacks (elements with an empty
/// text count as neither).
pub open spec fn sort_dump(a: Seq<A11ySpec>, yaml: Seq<Seq<char>>, n: int) -> (Seq<int>, Seq<int>)
    decreases n,
{
    if n <= 0 {
        (Seq::empty(), Seq::empty())
    } else {
        let p = sort_dump(a, yaml, n - 1);
        let t = normalized_text(a[n - 1].text);
        if t.len() == 0 {
            p
        } else if yaml.contains(t) {
            (p.0.push(n - 1), p.1)
        } else {
            (p.0, p.1.push(n - 1))
        }
    }
}

/// The contents of the capture whose normalised text the dump lacks, as
/// written, in order.
pub open spec fn extra_contents(es: Seq<SemanticElement>, dump: Seq<Seq<char>>) -> Seq<Seq<char>>
    decreases es.len(),
{
    if es.len() == 0 {
        Seq::empty()
    } else {
        let p = extra_contents(es.drop_last(), dump);
        match es.last().content {
            Some(c) => {
                let n = normalized_text(c@);
                if n.len() > 0 && !dump.contains(n) {
                    p.push(c@)
                } else {
                    p
                }
            },
            None => p,
        }
    }
}

/// How many dump elements have a text at all.
pub open spec fn with_text(a: Seq<A11ySpec>) -> nat
    decreases a.len(),
{
    if a.len() == 0 {
        0
    } else {
        with_text(a.drop_last()) + if a.last().text.len() > 0 {
            1nat
        } else {
            0nat
        }
    }
}

/// The outcome of comparing the texts of a capture and a dump.
pub struct ContentReport {
    /// Positions of the dump elements whose text the capture has.
    pub matched: Vec<usize>,
    /// Positions of the dump elements whose text the capture lacks.
    pub missing: Vec<usize>,
    /// Contents of the capture that the dump lacks.
    pub extra: Vec<String>,
    /// Dump elements with a text.
    pub a11y_total: usize,
    /// Distinct normalised contents of the capture.
    pub yaml_total: usize,
}

pub open spec fn idx_view(v: Seq<usize>) -> Seq<int> {
    v.map_values(|i: usize| i as int)
}

fn content_norm_list(es: &Vec<SemanticElement>) -> (r: Vec<String>)
    ensures
        r.deep_view() == content_norms(es@),
{
    let mut out: Vec<String> = Vec::new();
    let mut i: usize = 0;
    assert(es@.subrange(0, 0) =~= Seq::<SemanticElement>::empty());
    while i < es.len()
        invariant
            i <= es@.len(),
            out.deep_view() == content_norms(es@.subrange(0, i as int)),
        decreases es@.len() - i,
    {
        proof {
            let p = es@.subrange(0, i + 1);
            assert(p.drop_last() =~= es@.subrange(0, i as int));
            assert(p.last() == es@[i as int]);
        }
        let ghost before = out.deep_view();
        match &es[i].content {
            Some(c) => {
                let n = normalize(c.as_str());
                if !n.as_str().is_empty() {
                    out.push(n);
                    assert(out.deep_view() =~= before.push(normalized_text(c@)));
                }
            },
            None => {},
        }
        i = i + 1;
    }
    assert(es@.subrange(0, i as int) =~= es@);
    out
}

fn text_norm_list(a: &Vec<A11yElement>) -> (r: Vec<String>)
    ensures
        r.deep_view() == text_norms(a11y_view(a@)),
{
    let ghost all = a11y_view(a@);
    let mut out: Vec<String> = Vec::new();
    let mut i: usize = 0;
    assert(all.subrange(0, 0) =~= Seq::<A11ySpec>::empty());
    while i < a.len()
        invariant
            i <= a@.len(),
            all == a11y_view(a@),
            out.deep_view() == text_norms(all.subrange(0, i as int)),
        decreases a@.len() - i,
    {
        proof {
            let p = all.subrange(0, i + 1);
            assert(p.drop_last() =~= all.subrange(0, i as int));
            assert(p.last() == a@[i as int]@);
        }
        let ghost before = out.deep_view();
        let n = normalize(a[i].text.as_str());
        if !n.as_str().is_empty() {
            out.push(n);
            assert(out.deep_view() =~= before.push(normalized_text(a@[i as int].text@)));
        }
        i = i + 1;
    }
    assert(all.subrange(0, i as int) =~= all);
    out
}

fn dedup_list(v: &Vec<String>) -> (r: Vec<String>)
    ensures
        r.deep_view() == dedup(v.deep_view()),
{
    let ghost all = v.deep_view();
    let mut out: Vec<String> = Vec::new();
    let mut i: usize = 0;
    assert(all.subrange(0, 0) =~= Seq::<Seq<char>>::empty());
    while i < v.len()
        invariant
            i <= v@.len(),
            all == v.deep_view(),
            out.deep_view() == dedup(all.subrange(0, i as int)),
        decreases v@.len() - i,
    {
        proof {
            let p = all.subrange(0, i + 1);
            assert(p.drop_last() =~= all.subrange(0, i as int));
            assert(p.last() == v@[i as int]@);
        }
        let ghost before = out.deep_view();
        if !crate::names::contains_name(&out, v[i].as_str()) {
            out.push(v[i].clone());
            assert(out.deep_view() =~= before.push(v@[i as int]@));
        }
        i = i + 1;
    }
    assert(all.subrange(0, i as int) =~= all);
    out
}

/// Compares the texts of a capture with those of a dump: which dump
/// elements the capture covers, which it misses, which contents the dump
/// lacks, and the two totals.
pub fn compare_content(elements: &Vec<SemanticElement>, a11y: &Vec<A11yElement>) -> (r: ContentReport)
    ensures
        ({
            let a = a11y_view(a11y@);
            let yaml = content_norms(elements@);
            let sorted = sort_dump(a, yaml, a.len() as int);
            &&& idx_view(r.matched@) == sorted.0
            &&& idx_view(r.missing@) == sorted.1
            &&& r.extra.deep_view() == extra_contents(elements@, text_norms(a))
            &&& r.a11y_total == with_text(a)
            &&& r.yaml_total == dedup(yaml).len()
        }),
{
    let ghost a = a11y_view(a11y@);
    let yaml = content_norm_list(elements);
    let dump = text_norm_list(a11y);
    let distinct = dedup_list(&yaml);
    let mut matched: Vec<usize> = Vec::new();
    let mut missing: Vec<usize> = Vec::new();
    let mut total: usize = 0;
    let mut i: usize = 0;
    while i < a11y.len()
        invariant
            i <= a11y@.len(),
            a == a11y_view(a11y@),
            yaml.deep_view() == content_norms(elements@),
            idx_view(matched@) == sort_dump(a, yaml.deep_view(), i as int).0,
            idx_view(missing@) == sort_dump(a, yaml.deep_view(), i as int).1,
            total == with_text(a.subrange(0, i as int)),
            total <= i,
        decreases a11y@.len() - i,
    {
        proof {
            let p = a.subrange(0, i + 1);
            assert(p.drop_last() =~= a.subrange(0, i as int));
            assert(p.last() == a11y@[i as int]@);
        }
        let e = &a11y[i];
        if !e.text.as_str().is_empty() {
            total = total + 1;
        }
        let n = normalize(e.text.as_str());
        if !n.as_str().is_empty() {
            if crate::names::contains_name(&yaml, n.as_str()) {
                let ghost before = idx_view(matched@);
                matched.push(i);
                assert(idx_view(matched@) =~= before.push(i as int));
            } else {
                let ghost before = idx_view(missing@);
                missing.push(i);
                assert(idx_view(missing@) =~= before.push(i as int));
            }
        }
        i = i + 1;
    }
    assert(a.subrange(0, i as int) =~= a);
    let mut extra: Vec<String> = Vec::new();
    let mut k: usize = 0;
    assert(elements@.subrange(0, 0) =~= Seq::<SemanticElement>::empty());
    while k < elements.len()
        invariant
            k <= elements@.len(),
            dump.deep_view() == text_norms(a),
            extra.deep_view() == extra_contents(elements@.subrange(0, k as int), text_norms(a)),
        decreases elements@.len() - k,
    {
        proof {
            let p = elements@.subrange(0, k + 1);
            assert(p.drop_last() =~= elements@.subrange(0, k as int));
            assert(p.last() == elements@[k as int]);
        }
        let ghost before = extra.deep_view();
        match &elements[k].content {
            Some(c) => {
                let n = normalize(c.as_str());
                if !n.as_str().is_empty() && !crate::names::contains_name(&dump, n.as_str()) {
                    extra.push(c.clone());
                    assert(extra.deep_view() =~= before.push(c@));
                }
            },
            None => {},
        }
        k = k + 1;
    }
    assert(elements@.subrange(0, k as int) =~= elements@);
    ContentReport { matched, missing, extra, a11y_total: total, yaml_total: distinct.len() }
}

proof fn lemma_sort_dump(a: Seq<A11ySpec>, yaml: Seq<Seq<char>>, n: int, i: int)
    requires
        0 <= n <= a.len(),
    ensures
        sort_dump(a, yaml, n).0.len() + sort_dump(a, yaml, n).1.len() == text_norms(a.subrange(0, n)).len(),
        0 <= i < n ==> {
            let t = normalized_text(a[i].text);
            &&& sort_dump(a, yaml, n).0.contains(i) <==> (t.len() > 0 && yaml.contains(t))
            &&& sort_dump(a, yaml, n).1.contains(i) <==> (t.len() > 0 && !yaml.contains(t))
        },
        forall|k: int| 0 <= k < sort_dump(a, yaml, n).0.len() ==> 0 <= #[trigger] sort_dump(a, yaml, n).0[k] < n,
        forall|k: int| 0 <= k < sort_dump(a, yaml, n).1.len() ==> 0 <= #[trigger] sort_dump(a, yaml, n).1[k] < n,
    decreases n,
{
    if n > 0 {
        lemma_sort_dump(a, yaml, n - 1, i);
        let p = sort_dump(a, yaml, n - 1);
        let pre = a.subrange(0, n);
        assert(pre.drop_last() =~= a.subrange(0, n - 1));
        assert(pre.last() == a[n - 1]);
        let cur = sort_dump(a, yaml, n);
        if 0 <= i < n {
            if i < n - 1 {
                if cur.0.contains(i) && !p.0.contains(i) {
                    let k = choose|k: int| 0 <= k < cur.0.len() && cur.0[k] == i;
                    assert(k == p.0.len());
                }
                if p.0.contains(i) {
                    let k = choose|k: int| 0 <= k < p.0.len() && p.0[k] == i;
                    assert(cur.0.len() >= p.0.len());
                    assert(cur.0[k] == i);
                }
                if cur.1.contains(i) && !p.1.contains(i) {
                    let k = choose|k: int| 0 <= k < cur.1.len() && cur.1[k] == i;
                    assert(k == p.1.len());
                }
                if p.1.contains(i) {
                    let k = choose|k: int| 0 <= k < p.1.len() && p.1[k] == i;
                    assert(cur.1[k] == i);
                }
            } else {
                if p.0.contains(i) {
                    let k = choose|k: int| 0 <= k < p.0.len() && p.0[k] == i;
                }
                if p.1.contains(i) {
                    let k = choose|k: int| 0 <= k < p.1.len() && p.1[k] == i;
                }
                let t = normalized_text(a[i].text);
                if t.len() > 0 && yaml.contains(t) {
                    assert(cur.0[p.0.len() as int] == i);
                } else if t.len() > 0 {
                    assert(cur.1[p.1.len() as int] == i);
                }
                if cur.0.contains(i) {
                    let k = choose|k: int| 0 <= k < cur.0.len() && cur.0[k] == i;
                }
                if cur.1.contains(i) {
                    let k = choose|k: int| 0 <= k < cur.1.len() && cur.1[k] == i;
                }
            }
        }
    } else {
        assert(a.subrange(0, 0) =~= Seq::<A11ySpec>::empty());
    }
}

/// Every dump element with a text after normalisation is either matched
/// (the capture has its text) or missing (it does not), never both; one
/// with an empty text is neither; so the two lists together count the
/// non-empty dump texts.
pub proof fn law_content_partition(a: Seq<A11ySpec>, yaml: Seq<Seq<char>>, i: int)
    requires
        0 <= i < a.len(),
    ensures
        ({
            let s = sort_dump(a, yaml, a.len() as int);
            let t = normalized_text(a[i].text);
            &&& s.0.contains(i) <==> (t.len() > 0 && yaml.contains(t))
            &&& s.1.contains(i) <==> (t.len() > 0 && !yaml.contains(t))
            &&& !(s.0.contains(i) && s.1.contains(i))
            &&& s.0.len() + s.1.len() == text_norms(a).len()
        }),
{
    lemma_sort_dump(a, yaml, a.len() as int, i);
    assert(a.subrange(0, a.len() as int) =~= a);
}

} // verus!
