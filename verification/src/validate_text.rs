//! `vdb validate-text`: checks the texts of a capture against what OCR
//! reads at the same places of a device screenshot.

use vstd::prelude::*;

use crate::matching::{byte_len, chars_byte_len};
use crate::schema::{Micro, SemanticElement};
use crate::text::{
    append_chars, chars_eq, chars_of, contains, decode_chars, decoded, is_whitespace, is_ws,
    seq_contains, string_of, to_lowercase, trim, trim_chars, unicode_lowercase,
};
use crate::validate_content::{px, to_px};

verus! {

// ---------------------------------------------------------------------------
// Text normalisation
// ---------------------------------------------------------------------------

/// The fields of `s` between whitespace characters.
pub open spec fn ws_fields(s: Seq<char>) -> Seq<Seq<char>>
    decreases s.len(),
{
    if s.len() == 0 {
        seq![Seq::empty()]
    } else if is_ws(s.last()) {
        ws_fields(s.drop_last()).push(Seq::empty())
    } else {
        let p = ws_fields(s.drop_last());
        p.update(p.len() - 1, p.last().push(s.last()))
    }
}

proof fn lemma_ws_fields_nonempty(s: Seq<char>)
    ensures
        ws_fields(s).len() >= 1,
    decreases s.len(),
{
    if s.len() > 0 {
        lemma_ws_fields_nonempty(s.drop_last());
    }
}

/// The non-empty fields.
pub open spec fn nonempty_fields(fs: Seq<Seq<char>>) -> Seq<Seq<char>>
    decreases fs.len(),
{
    if fs.len() == 0 {
        Seq::empty()
    } else if fs.last().len() > 0 {
        nonempty_fields(fs.drop_last()).push(fs.last())
    } else {
        nonempty_fields(fs.drop_last())
    }
}

/// The words of `s`, as `str::split_whitespace` yields them.
pub open spec fn words(s: Seq<char>) -> Seq<Seq<char>> {
    nonempty_fields(ws_fields(s))
}

/// The words joined by single spaces.
pub open spec fn join_words(ws: Seq<Seq<char>>) -> Seq<char>
    decreases ws.len(),
{
    if ws.len() == 0 {
        Seq::empty()
    } else if ws.len() == 1 {
        ws[0]
    } else {
        join_words(ws.drop_last()) + seq![' '] + ws.last()
    }
}

/// Entities decoded, trimmed, lowercased, and every run of whitespace made
/// one space.
pub open spec fn normalized_words(s: Seq<char>) -> Seq<char> {
    join_words(words(unicode_lowercase(trim(decoded(s)))))
}

fn words_of(v: &Vec<char>) -> (r: Vec<Vec<char>>)
    ensures
        crate::names::char_views(r@) == words(v@),
{
    let mut out: Vec<Vec<char>> = Vec::new();
    let mut cur: Vec<char> = Vec::new();
    let mut i: usize = 0;
    assert(v@.subrange(0, 0) =~= Seq::<char>::empty());
    assert(crate::names::char_views(out@) =~= nonempty_fields(Seq::<Seq<char>>::empty()));
    while i < v.len()
        invariant
            i <= v.len(),
            ws_fields(v@.subrange(0, i as int)).len() >= 1,
            crate::names::char_views(out@) == nonempty_fields(ws_fields(v@.subrange(0, i as int)).drop_last()),
            cur@ == ws_fields(v@.subrange(0, i as int)).last(),
        decreases v.len() - i,
    {
        let c = v[i];
        let ghost pre = v@.subrange(0, i as int);
        let ghost fs = ws_fields(pre);
        proof {
            let p = v@.subrange(0, i + 1);
            assert(p.drop_last() =~= pre);
            assert(p.last() == c);
            lemma_ws_fields_nonempty(pre);
        }
        if is_whitespace(c) {
            let ghost before = crate::names::char_views(out@);
            proof {
                assert(fs.push(Seq::empty()).drop_last() =~= fs);
                assert(fs.drop_last().push(fs.last()) =~= fs);
            }
            if cur.len() > 0 {
                let done = cur;
                out.push(done);
                assert(crate::names::char_views(out@) =~= before.push(done@));
            }
            cur = Vec::new();
        } else {
            cur.push(c);
            proof {
                let nf = fs.update(fs.len() - 1, fs.last().push(c));
                assert(nf.drop_last() =~= fs.drop_last());
            }
        }
        i = i + 1;
    }
    assert(v@.subrange(0, i as int) =~= v@);
    let ghost fs = ws_fields(v@);
    let ghost before = crate::names::char_views(out@);
    proof {
        assert(fs.drop_last().push(fs.last()) =~= fs);
    }
    if cur.len() > 0 {
        let done = cur;
        out.push(done);
        assert(crate::names::char_views(out@) =~= before.push(done@));
    }
    out
}

fn join_with_spaces(ws: &Vec<Vec<char>>) -> (r: Vec<char>)
    ensures
        r@ == join_words(crate::names::char_views(ws@)),
{
    let ghost all = crate::names::char_views(ws@);
    let mut out: Vec<char> = Vec::new();
    let mut i: usize = 0;
    assert(all.subrange(0, 0) =~= Seq::<Seq<char>>::empty());
    while i < ws.len()
        invariant
            i <= ws@.len(),
            all == crate::names::char_views(ws@),
            out@ == join_words(all.subrange(0, i as int)),
        decreases ws@.len() - i,
    {
        let ghost p = all.subrange(0, i + 1);
        proof {
            assert(p.drop_last() =~= all.subrange(0, i as int));
            assert(p.last() == ws@[i as int]@);
        }
        if i > 0 {
            out.push(' ');
        } else {
            assert(p =~= seq![ws@[0]@]);
        }
        let ghost before = out@;
        append_chars(&mut out, &ws[i]);
        i = i + 1;
    }
    assert(all.subrange(0, i as int) =~= all);
    out
}

/// Normalises a text for comparison with OCR: entities decoded, trimmed,
/// lowercased, whitespace runs made single spaces.
pub fn normalize(s: &str) -> (r: String)
    ensures
        r@ == normalized_words(s@),
{
    let v = chars_of(s);
    let d = decode_chars(&v);
    let t = trim_chars(&d);
    let ts = string_of(&t);
    let lower = to_lowercase(ts.as_str());
    let l = chars_of(lower.as_str());
    let ws = words_of(&l);
    let joined = join_with_spaces(&ws);
    string_of(&joined)
}

/// `s` when it has at most `max` bytes, else its first `max` characters
/// and `...`.
pub open spec fn truncated_text(s: Seq<char>, max: nat) -> Seq<char> {
    if byte_len(s) <= max {
        s
    } else if max < s.len() {
        s.take(max as int) + "..."@
    } else {
        s + "..."@
    }
}

/// Shortens a text for display.
pub fn truncate(s: &str, max: usize) -> (r: String)
    ensures
        r@ == truncated_text(s@, max as nat),
{
    let v = chars_of(s);
    if chars_byte_len(&v) <= max {
        return s.to_owned();
    }
    let mut head: Vec<char> = if max < v.len() {
        crate::text::subvec(&v, 0, max)
    } else {
        crate::text::subvec(&v, 0, v.len())
    };
    assert(max < v@.len() ==> head@ =~= v@.take(max as int));
    assert(max >= v@.len() ==> head@ =~= v@);
    crate::text::append_str(&mut head, "...");
    string_of(&head)
}

// ---------------------------------------------------------------------------
// Which elements are read, and where
// ---------------------------------------------------------------------------

/// An element worth reading: a content of at least two bytes, a box of at
/// least 10×8 dp, inside the screen's top-left quadrant of coordinates.
pub open spec fn text_element(e: SemanticElement) -> bool {
    &&& e.content matches Some(c) && c@.len() > 0 && byte_len(c@) >= 2
    &&& e.bounds.w >= 10 && e.bounds.h >= 8
    &&& e.bounds.x >= 0 && e.bounds.y >= 0
}

/// Whether OCR should read an element.
pub fn is_text_element(e: &SemanticElement) -> (r: bool)
    ensures
        r == text_element(*e),
{
    let content_ok = match &e.content {
        Some(c) => {
            let v = chars_of(c.as_str());
            v.len() > 0 && chars_byte_len(&v) >= 2
        },
        None => false,
    };
    content_ok && e.bounds.w >= 10 && e.bounds.h >= 8 && e.bounds.x >= 0 && e.bounds.y >= 0
}

/// The screenshot region OCR reads for an element, in device pixels.
pub struct OcrRegion {
    pub id: String,
    pub x: i64,
    pub y: i64,
    pub w: i64,
    pub h: i64,
}

/// The region of an element: its box at the density, grown by 2 pixels on
/// every side (not past the top-left corner).
pub open spec fn region_of(e: SemanticElement, density: int) -> (int, int, int, int) {
    let x = to_px(e.bounds.x as int, density) - 2;
    let y = to_px(e.bounds.y as int, density) - 2;
    (
        if x > 0 { x } else { 0 },
        if y > 0 { y } else { 0 },
        to_px(e.bounds.w as int, density) + 4,
        to_px(e.bounds.h as int, density) + 4,
    )
}

/// The region OCR reads for an element.
pub fn ocr_region(e: &SemanticElement, density: Micro) -> (r: OcrRegion)
    ensures
        r.id@ == e.id@,
        (r.x as int, r.y as int, r.w as int, r.h as int) == region_of(*e, density as int),
{
    let x = px(e.bounds.x as i64, density) - 2;
    let y = px(e.bounds.y as i64, density) - 2;
    OcrRegion {
        id: e.id.clone(),
        x: if x > 0 {
            x
        } else {
            0
        },
        y: if y > 0 {
            y
        } else {
            0
        },
        w: px(e.bounds.w as i64, density) + 4,
        h: px(e.bounds.h as i64, density) + 4,
    }
}

/// The density OCR regions use: the one given, else the capture's positive
/// declared density, else 3.
pub open spec fn ocr_density(given: Option<int>, declared: Option<int>) -> int {
    match given {
        Some(d) => d,
        None => match declared {
            Some(d) => if d > 0 { d } else { 3_000_000 },
            None => 3_000_000,
        },
    }
}

/// Picks the density for OCR regions.
pub fn pick_density(given: Option<Micro>, declared: Option<Micro>) -> (r: Micro)
    ensures
        r as int == ocr_density(
            match given {
                Some(d) => Some(d as int),
                None => None,
            },
            match declared {
                Some(d) => Some(d as int),
                None => None,
            },
        ),
{
    match given {
        Some(d) => d,
        None => match declared {
            Some(d) => if d > 0 {
                d
            } else {
                3_000_000
            },
            None => 3_000_000,
        },
    }
}

// ---------------------------------------------------------------------------
// Comparison with OCR
// ---------------------------------------------------------------------------

/// OCR agrees with the expected text when the normalised texts are equal,
/// or, for an expected text of at least three bytes, when either contains
/// the other.
pub open spec fn ocr_agrees(expected: Seq<char>, ocr: Seq<char>) -> bool {
    let e = normalized_words(expected);
    let o = normalized_words(ocr);
    e == o || (byte_len(e) >= 3 && (seq_contains(o, e) || seq_contains(e, o)))
}

/// Whether the OCR reading of an element matches its expected text.
pub fn text_matches(expected: &str, ocr: &str) -> (r: bool)
    ensures
        r == ocr_agrees(expected@, ocr@),
{
    let e = chars_of(normalize(expected).as_str());
    let o = chars_of(normalize(ocr).as_str());
    if chars_eq(&e, &o) {
        return true;
    }
    chars_byte_len(&e) >= 3 && (contains(&o, &e) || contains(&e, &o))
}

/// The position of the first OCR result for an element.
pub fn find_ocr(ids: &Vec<String>, id: &str) -> (r: Option<usize>)
    ensures
        r matches Some(k) ==> k < ids@.len() && ids@[k as int]@ == id@ && forall|j: int| 0 <= j < k ==> ids@[j]@ != id@,
        r is None ==> forall|j: int| 0 <= j < ids@.len() ==> ids@[j]@ != id@,
{
    let mut i: usize = 0;
    while i < ids.len()
        invariant
            i <= ids@.len(),
            forall|j: int| 0 <= j < i ==> ids@[j]@ != id@,
        decreases ids@.len() - i,
    {
        if crate::text::str_eq(ids[i].as_str(), id) {
            return Some(i);
        }
        i = i + 1;
    }
    None
}

} // verus!
