//! `vdb tolerances-infer`: pairs the elements of captures of one screen
//! and measures how far each pair drifts, the material from which drift
//! tolerances are suggested.

use vstd::prelude::*;

use crate::schema::{Micro, SemanticElement, SemanticSchema};
use crate::text::{chars_of, starts_with, str_eq, to_lowercase, unicode_lowercase};

verus! {

/// Arguments of `vdb tolerances-infer`.
pub struct TolerancesInferArgs {
    /// Source YAML files (two or three).
    pub sources: Vec<String>,
    /// Output as YAML (to paste into a manifest).
    pub yaml: bool,
}

// ---------------------------------------------------------------------------
// Pairing
// ---------------------------------------------------------------------------

/// The lowercased content of an element (empty without content).
pub open spec fn lower_content(e: SemanticElement) -> Seq<char> {
    unicode_lowercase(
        match e.content {
            Some(c) => c@,
            None => Seq::empty(),
        },
    )
}

/// Two elements pair when they share a non-empty ID or a non-empty
/// lowercased content.
pub open spec fn pairs_with(a: SemanticElement, b: SemanticElement) -> bool {
    (a.id@.len() > 0 && a.id@ == b.id@) || (lower_content(a).len() > 0 && lower_content(a) == lower_content(b))
}

/// The first element of `b` at or after `from` that is still free and
/// pairs with `a`.
pub open spec fn first_partner(a: SemanticElement, b: Seq<SemanticElement>, used: Seq<bool>, from: int) -> Option<int>
    decreases b.len() - from,
{
    if from < 0 || from >= b.len() {
        None
    } else if !used[from] && pairs_with(a, b[from]) {
        Some(from)
    } else {
        first_partner(a, b, used, from + 1)
    }
}

proof fn lemma_first_partner(a: SemanticElement, b: Seq<SemanticElement>, used: Seq<bool>, from: int)
    requires
        0 <= from,
    ensures
        first_partner(a, b, used, from) matches Some(k) ==> from <= k < b.len() && !used[k] && pairs_with(a, b[k]),
    decreases b.len() - from,
{
    if from < b.len() && !(!used[from] && pairs_with(a, b[from])) {
        lemma_first_partner(a, b, used, from + 1);
    }
}

/// Pairing the first `n` elements of `a`, each with the first free element
/// of `b` it pairs with (skipping elements with neither content nor ID):
/// the pairs as positions, and which elements of `b` are taken.
pub open spec fn pairing(a: Seq<SemanticElement>, b: Seq<SemanticElement>, n: int) -> (Seq<(int, int)>, Seq<bool>)
    decreases n,
{
    if n <= 0 {
        (Seq::empty(), Seq::new(b.len(), |k: int| false))
    } else {
        let prev = pairing(a, b, n - 1);
        let e = a[n - 1];
        if lower_content(e).len() == 0 && e.id@.len() == 0 {
            prev
        } else {
            match first_partner(e, b, prev.1, 0) {
                Some(k) => (prev.0.push((n - 1, k)), prev.1.update(k, true)),
                None => prev,
            }
        }
    }
}

proof fn lemma_pairing_len(a: Seq<SemanticElement>, b: Seq<SemanticElement>, n: int)
    ensures
        pairing(a, b, n).1.len() == b.len(),
    decreases n,
{
    if n > 0 {
        lemma_pairing_len(a, b, n - 1);
        lemma_first_partner(a[n - 1], b, pairing(a, b, n - 1).1, 0);
    }
}

// ---------------------------------------------------------------------------
// Measures of a pair
// ---------------------------------------------------------------------------

/// The drift of one pair, as exact quantities.
pub struct MatchedPair {
    pub id: String,
    /// Both font sizes, when both are positive (millionths of a point).
    pub font_sizes: Option<(Micro, Micro)>,
    /// Both text colours, when both are `#` hex colours.
    pub colors: Option<(String, String)>,
    /// Both backgrounds, when both are `#` hex colours.
    pub backgrounds: Option<(String, String)>,
    /// Horizontal offset in dp, when non-zero.
    pub x_offset: Option<u64>,
    /// Width difference and larger width (at least 1), when the widths differ.
    pub width_diff: Option<(u64, u64)>,
    /// Height difference and larger height (at least 1), when the heights differ.
    pub height_diff: Option<(u64, u64)>,
    /// Corner radius difference, when non-zero (millionths of a dp).
    pub corner_radius_diff: Option<u128>,
    /// Border width difference, when non-zero (millionths of a dp).
    pub border_width_diff: Option<u128>,
}

pub struct PairSpec {
    pub id: Seq<char>,
    pub font_sizes: Option<(int, int)>,
    pub colors: Option<(Seq<char>, Seq<char>)>,
    pub backgrounds: Option<(Seq<char>, Seq<char>)>,
    pub x_offset: Option<int>,
    pub width_diff: Option<(int, int)>,
    pub height_diff: Option<(int, int)>,
    pub corner_radius_diff: Option<int>,
    pub border_width_diff: Option<int>,
}

pub open spec fn str_pair(p: Option<(String, String)>) -> Option<(Seq<char>, Seq<char>)> {
    match p {
        Some((a, b)) => Some((a@, b@)),
        None => None,
    }
}

impl View for MatchedPair {
    type V = PairSpec;

    open spec fn view(&self) -> PairSpec {
        PairSpec {
            id: self.id@,
            font_sizes: match self.font_sizes {
                Some((a, b)) => Some((a as int, b as int)),
                None => None,
            },
            colors: str_pair(self.colors),
            backgrounds: str_pair(self.backgrounds),
            x_offset: match self.x_offset {
                Some(d) => Some(d as int),
                None => None,
            },
            width_diff: match self.width_diff {
                Some((d, m)) => Some((d as int, m as int)),
                None => None,
            },
            height_diff: match self.height_diff {
                Some((d, m)) => Some((d as int, m as int)),
                None => None,
            },
            corner_radius_diff: match self.corner_radius_diff {
                Some(d) => Some(d as int),
                None => None,
            },
            border_width_diff: match self.border_width_diff {
                Some(d) => Some(d as int),
                None => None,
            },
        }
    }
}

pub open spec fn absd(a: int, b: int) -> int {
    if a >= b {
        a - b
    } else {
        b - a
    }
}

pub open spec fn larger(a: int, b: int) -> int {
    if a >= b {
        a
    } else {
        b
    }
}

pub open spec fn text_colour(e: SemanticElement) -> Option<String> {
    match e.foreground {
        Some(f) => Some(f),
        None => e.color,
    }
}

pub open spec fn hex_pair(a: Option<String>, b: Option<String>) -> Option<(Seq<char>, Seq<char>)> {
    match (a, b) {
        (Some(x), Some(y)) => if starts_with(x@, "#"@) && starts_with(y@, "#"@) {
            Some((x@, y@))
        } else {
            None
        },
        _ => None,
    }
}

/// A size difference and the larger size (at least 1), when they differ.
pub open spec fn size_diff(a: int, b: int) -> Option<(int, int)> {
    if absd(a, b) > 0 {
        Some((absd(a, b), larger(larger(a, b), 1)))
    } else {
        None
    }
}

/// The measures of a pair.
pub open spec fn measure(a: SemanticElement, b: SemanticElement) -> PairSpec {
    PairSpec {
        id: if a.id@.len() > 0 {
            a.id@
        } else {
            lower_content(a)
        },
        font_sizes: match (a.font, b.font) {
            (Some(af), Some(bf)) => if af.size > 0 && bf.size > 0 {
                Some((af.size as int, bf.size as int))
            } else {
                None
            },
            _ => None,
        },
        colors: hex_pair(text_colour(a), text_colour(b)),
        backgrounds: hex_pair(a.background, b.background),
        x_offset: if absd(a.bounds.x as int, b.bounds.x as int) > 0 {
            Some(absd(a.bounds.x as int, b.bounds.x as int))
        } else {
            None
        },
        width_diff: size_diff(a.bounds.w as int, b.bounds.w as int),
        height_diff: size_diff(a.bounds.h as int, b.bounds.h as int),
        corner_radius_diff: match (a.corner_radius, b.corner_radius) {
            (Some(ar), Some(br)) => if absd(ar as int, br as int) > 0 {
                Some(absd(ar as int, br as int))
            } else {
                None
            },
            _ => None,
        },
        border_width_diff: match (a.border, b.border) {
            (Some(ab), Some(bb)) => if absd(ab.width as int, bb.width as int) > 0 {
                Some(absd(ab.width as int, bb.width as int))
            } else {
                None
            },
            _ => None,
        },
    }
}

fn abs_i32(a: i32, b: i32) -> (r: u64)
    ensures
        r == absd(a as int, b as int),
{
    let d = a as i64 - b as i64;
    if d >= 0 {
        d as u64
    } else {
        (-d) as u64
    }
}

fn abs_i64(a: i64, b: i64) -> (r: u128)
    ensures
        r == absd(a as int, b as int),
{
    let d = a as i128 - b as i128;
    if d >= 0 {
        d as u128
    } else {
        (-d) as u128
    }
}

fn size_diff_of(a: i32, b: i32) -> (r: Option<(u64, u64)>)
    ensures
        match r {
            Some((d, m)) => size_diff(a as int, b as int) == Some((d as int, m as int)),
            None => size_diff(a as int, b as int) is None,
        },
{
    let d = abs_i32(a, b);
    if d > 0 {
        let big: i64 = if a >= b {
            a as i64
        } else {
            b as i64
        };
        let m: u64 = if big >= 1 {
            big as u64
        } else {
            1
        };
        Some((d, m))
    } else {
        None
    }
}

fn hex_pair_of(a: &Option<String>, b: &Option<String>) -> (r: Option<(String, String)>)
    ensures
        str_pair(r) == hex_pair(*a, *b),
{
    match (a, b) {
        (Some(x), Some(y)) => {
            let hash = chars_of("#");
            if crate::text::has_prefix(&chars_of(x.as_str()), &hash) && crate::text::has_prefix(
                &chars_of(y.as_str()),
                &hash,
            ) {
                Some((x.clone(), y.clone()))
            } else {
                None
            }
        },
        _ => None,
    }
}

fn text_colour_of(e: &SemanticElement) -> (r: &Option<String>)
    ensures
        *r == text_colour(*e),
{
    match &e.foreground {
        Some(_) => &e.foreground,
        None => &e.color,
    }
}

fn measure_pair(a: &SemanticElement, b: &SemanticElement, a_content: &String) -> (r: MatchedPair)
    requires
        a_content@ == lower_content(*a),
    ensures
        r@ == measure(*a, *b),
{
    let id = if !a.id.as_str().is_empty() {
        a.id.clone()
    } else {
        a_content.clone()
    };
    let font_sizes = match (&a.font, &b.font) {
        (Some(af), Some(bf)) => if af.size > 0 && bf.size > 0 {
            Some((af.size, bf.size))
        } else {
            None
        },
        _ => None,
    };
    let dx = abs_i32(a.bounds.x, b.bounds.x);
    let corner_radius_diff = match (a.corner_radius, b.corner_radius) {
        (Some(ar), Some(br)) => {
            let d = abs_i64(ar, br);
            if d > 0 {
                Some(d)
            } else {
                None
            }
        },
        _ => None,
    };
    let border_width_diff = match (&a.border, &b.border) {
        (Some(ab), Some(bb)) => {
            let d = abs_i64(ab.width, bb.width);
            if d > 0 {
                Some(d)
            } else {
                None
            }
        },
        _ => None,
    };
    MatchedPair {
        id,
        font_sizes,
        colors: hex_pair_of(text_colour_of(a), text_colour_of(b)),
        backgrounds: hex_pair_of(&a.background, &b.background),
        x_offset: if dx > 0 {
            Some(dx)
        } else {
            None
        },
        width_diff: size_diff_of(a.bounds.w, b.bounds.w),
        height_diff: size_diff_of(a.bounds.h, b.bounds.h),
        corner_radius_diff,
        border_width_diff,
    }
}

fn lowered(e: &SemanticElement) -> (r: String)
    ensures
        r@ == lower_content(*e),
{
    match &e.content {
        Some(c) => to_lowercase(c.as_str()),
        None => {
            let empty = String::new();
            to_lowercase(empty.as_str())
        },
    }
}

/// The pairs of two captures, each element of `a` (in order) with the
/// first free element of `b` that shares its ID or lowercased content, and
/// the drift of each pair.
pub fn find_matched_pairs(a: &SemanticSchema, b: &SemanticSchema) -> (r: Vec<MatchedPair>)
    ensures
        ({
            let ps = pairing(a.elements@, b.elements@, a.elements@.len() as int).0;
            &&& r@.len() == ps.len()
            &&& forall|k: int|
                0 <= k < ps.len() ==> (#[trigger] r@[k])@ == measure(a.elements@[ps[k].0], b.elements@[ps[k].1])
        }),
{
    let ghost ae = a.elements@;
    let ghost be = b.elements@;
    let b_lower: Vec<String> = {
        let mut v: Vec<String> = Vec::new();
        let mut j: usize = 0;
        while j < b.elements.len()
            invariant
                j <= be.len(),
                be == b.elements@,
                v@.len() == j,
                forall|k: int| 0 <= k < j ==> (#[trigger] v@[k])@ == lower_content(be[k]),
            decreases be.len() - j,
        {
            v.push(lowered(&b.elements[j]));
            j = j + 1;
        }
        v
    };
    let mut used: Vec<bool> = Vec::new();
    let mut j: usize = 0;
    while j < b.elements.len()
        invariant
            j <= be.len(),
            be == b.elements@,
            used@ == Seq::new(j as nat, |k: int| false),
        decreases be.len() - j,
    {
        used.push(false);
        j = j + 1;
        assert(used@ =~= Seq::new(j as nat, |k: int| false));
    }
    let mut pairs: Vec<MatchedPair> = Vec::new();
    let mut i: usize = 0;
    while i < a.elements.len()
        invariant
            i <= ae.len(),
            ae == a.elements@,
            be == b.elements@,
            b_lower@.len() == be.len(),
            forall|k: int| 0 <= k < be.len() ==> (#[trigger] b_lower@[k])@ == lower_content(be[k]),
            used@ == pairing(ae, be, i as int).1,
            pairs@.len() == pairing(ae, be, i as int).0.len(),
            forall|k: int| 0 <= k < pairs@.len() ==> 0 <= #[trigger] pairing(ae, be, i as int).0[k].0 < ae.len()
                && 0 <= pairing(ae, be, i as int).0[k].1 < be.len(),
            forall|k: int|
                0 <= k < pairs@.len() ==> (#[trigger] pairs@[k])@ == measure(
                    ae[pairing(ae, be, i as int).0[k].0],
                    be[pairing(ae, be, i as int).0[k].1],
                ),
        decreases ae.len() - i,
    {
        proof {
            lemma_pairing_len(ae, be, i as int);
        }
        let e = &a.elements[i];
        let content = lowered(e);
        let ghost prev = pairing(ae, be, i as int);
        if !(content.as_str().is_empty() && e.id.as_str().is_empty()) {
            let mut k: usize = 0;
            let mut found: Option<usize> = None;
            while k < b.elements.len()
                invariant_except_break
                    found is None,
                    first_partner(*e, be, prev.1, 0) == first_partner(*e, be, prev.1, k as int),
                invariant
                    k <= be.len(),
                    be == b.elements@,
                    used@ == prev.1,
                    used@.len() == be.len(),
                    b_lower@.len() == be.len(),
                    forall|m: int| 0 <= m < be.len() ==> (#[trigger] b_lower@[m])@ == lower_content(be[m]),
                    content@ == lower_content(*e),
                ensures
                    found matches Some(f) ==> first_partner(*e, be, prev.1, 0) == Some(f as int),
                    found is None ==> first_partner(*e, be, prev.1, 0) is None,
                decreases be.len() - k,
            {
                if !used[k] {
                    let be_k = &b.elements[k];
                    let id_match = !e.id.as_str().is_empty() && str_eq(e.id.as_str(), be_k.id.as_str());
                    let content_match = !content.as_str().is_empty() && str_eq(content.as_str(), b_lower[k].as_str());
                    if id_match || content_match {
                        found = Some(k);
                        break;
                    }
                }
                k = k + 1;
            }
            match found {
                Some(f) => {
                    proof {
                        lemma_first_partner(*e, be, prev.1, 0);
                    }
                    used.set(f, true);
                    let m = measure_pair(e, &b.elements[f], &content);
                    let ghost before = pairs@;
                    pairs.push(m);
                    proof {
                        let cur = pairing(ae, be, i + 1);
                        assert(cur.0 == prev.0.push((i as int, f as int)));
                        assert forall|q: int| 0 <= q < pairs@.len() implies (#[trigger] pairs@[q])@ == measure(
                            ae[cur.0[q].0],
                            be[cur.0[q].1],
                        ) && 0 <= cur.0[q].0 < ae.len() && 0 <= cur.0[q].1 < be.len() by {
                            if q < before.len() {
                                assert(pairs@[q] == before[q]);
                                assert(cur.0[q] == prev.0[q]);
                            }
                        }
                    }
                },
                None => {},
            }
        }
        i = i + 1;
    }
    pairs
}

proof fn lemma_pairing_props(a: Seq<SemanticElement>, b: Seq<SemanticElement>, n: int)
    requires
        0 <= n <= a.len(),
    ensures
        ({
            let (ps, used) = pairing(a, b, n);
            &&& used.len() == b.len()
            &&& forall|k: int| 0 <= k < ps.len() ==> 0 <= (#[trigger] ps[k]).0 < n && 0 <= ps[k].1 < b.len()
                && used[ps[k].1] && pairs_with(a[ps[k].0], b[ps[k].1])
            &&& forall|j: int| 0 <= j < b.len() && #[trigger] used[j] ==> exists|k: int| 0 <= k < ps.len() && ps[k].1 == j
            &&& forall|k1: int, k2: int| 0 <= k1 < k2 < ps.len() ==> (#[trigger] ps[k1]).1 != (#[trigger] ps[k2]).1
                && ps[k1].0 < ps[k2].0
        }),
    decreases n,
{
    if n > 0 {
        lemma_pairing_props(a, b, n - 1);
        lemma_pairing_len(a, b, n - 1);
        let prev = pairing(a, b, n - 1);
        let e = a[n - 1];
        if !(lower_content(e).len() == 0 && e.id@.len() == 0) {
            lemma_first_partner(e, b, prev.1, 0);
            match first_partner(e, b, prev.1, 0) {
                Some(f) => {
                    let cur = pairing(a, b, n);
                    assert(cur.0 == prev.0.push((n - 1, f)));
                    assert(cur.1 == prev.1.update(f, true));
                    assert forall|j: int| 0 <= j < b.len() && #[trigger] cur.1[j] implies exists|k: int|
                        0 <= k < cur.0.len() && cur.0[k].1 == j by {
                        if j == f {
                            assert(cur.0[prev.0.len() as int].1 == j);
                        } else {
                            assert(prev.1[j]);
                            let k = choose|k: int| 0 <= k < prev.0.len() && prev.0[k].1 == j;
                            assert(cur.0[k] == prev.0[k]);
                        }
                    }
                    assert forall|k1: int, k2: int| 0 <= k1 < k2 < cur.0.len() implies (#[trigger] cur.0[k1]).1
                        != (#[trigger] cur.0[k2]).1 && cur.0[k1].0 < cur.0[k2].0 by {
                        if k2 == prev.0.len() {
                            assert(prev.1[prev.0[k1].1]);
                        } else {
                            assert(cur.0[k1] == prev.0[k1]);
                            assert(cur.0[k2] == prev.0[k2]);
                        }
                    }
                    assert forall|k: int| 0 <= k < cur.0.len() implies 0 <= (#[trigger] cur.0[k]).0 < n && 0
                        <= cur.0[k].1 < b.len() && cur.1[cur.0[k].1] && pairs_with(a[cur.0[k].0], b[cur.0[k].1]) by {
                        if k < prev.0.len() {
                            assert(cur.0[k] == prev.0[k]);
                        }
                    }
                },
                None => {},
            }
        }
    }
}

/// What is measured of a pair, field by field, from the two elements: a
/// drift is recorded exactly when both sides have the value and the two
/// differ, and it is their distance; a width or height drift also carries
/// the larger side (at least 1); font sizes when both are positive; colours
/// and backgrounds when both are `#` hex values; the label is the first
/// element's ID, or its lowercased content without one.
pub proof fn law_pair_measures(a: SemanticElement, b: SemanticElement)
    ensures
        ({
            let m = measure(a, b);
            &&& m.id == (if a.id@.len() > 0 { a.id@ } else { lower_content(a) })
            &&& (m.corner_radius_diff is Some <==> (a.corner_radius is Some && b.corner_radius is Some
                && a.corner_radius->0 != b.corner_radius->0))
            &&& (m.corner_radius_diff matches Some(d) ==> d > 0 && (d == a.corner_radius->0 - b.corner_radius->0 || d
                == b.corner_radius->0 - a.corner_radius->0))
            &&& (m.border_width_diff is Some <==> (a.border is Some && b.border is Some && a.border->0.width
                != b.border->0.width))
            &&& (m.border_width_diff matches Some(d) ==> d > 0 && (d == a.border->0.width - b.border->0.width || d
                == b.border->0.width - a.border->0.width))
            &&& (m.x_offset is Some <==> a.bounds.x != b.bounds.x)
            &&& (m.x_offset matches Some(d) ==> d > 0 && (d == a.bounds.x - b.bounds.x || d == b.bounds.x
                - a.bounds.x))
            &&& (m.width_diff is Some <==> a.bounds.w != b.bounds.w)
            &&& (m.width_diff matches Some((d, big)) ==> d > 0 && (d == a.bounds.w - b.bounds.w || d == b.bounds.w
                - a.bounds.w) && big >= 1 && big >= a.bounds.w && big >= b.bounds.w && (big == 1 || big
                == a.bounds.w || big == b.bounds.w))
            &&& (m.height_diff is Some <==> a.bounds.h != b.bounds.h)
            &&& (m.height_diff matches Some((d, big)) ==> d > 0 && (d == a.bounds.h - b.bounds.h || d == b.bounds.h
                - a.bounds.h) && big >= 1 && big >= a.bounds.h && big >= b.bounds.h && (big == 1 || big
                == a.bounds.h || big == b.bounds.h))
            &&& (m.font_sizes is Some <==> (a.font is Some && b.font is Some && a.font->0.size > 0 && b.font->0.size
                > 0))
            &&& (m.font_sizes matches Some((x, y)) ==> x == a.font->0.size && y == b.font->0.size)
        }),
{
}

/// The drifts of a pair do not depend on which capture comes first.
pub proof fn law_pair_drifts_symmetric(a: SemanticElement, b: SemanticElement)
    ensures
        measure(a, b).corner_radius_diff == measure(b, a).corner_radius_diff,
        measure(a, b).border_width_diff == measure(b, a).border_width_diff,
        measure(a, b).x_offset == measure(b, a).x_offset,
        measure(a, b).width_diff == measure(b, a).width_diff,
        measure(a, b).height_diff == measure(b, a).height_diff,
{
}

/// A sequence of distinct integers drawn from `[lo, hi)` has at most
/// `hi - lo` entries.
proof fn lemma_distinct_in_range(s: Seq<int>, lo: int, hi: int)
    requires
        lo <= hi,
        s.no_duplicates(),
        forall|k: int| 0 <= k < s.len() ==> lo <= #[trigger] s[k] < hi,
    ensures
        s.len() <= hi - lo,
{
    s.unique_seq_to_set();
    vstd::set_lib::lemma_int_range(lo, hi);
    assert(s.to_set().subset_of(vstd::set_lib::set_int_range(lo, hi))) by {
        assert forall|x: int| s.to_set().contains(x) implies vstd::set_lib::set_int_range(lo, hi).contains(x) by {
            let k = choose|k: int| 0 <= k < s.len() && s[k] == x;
            assert(s[k] == x);
        }
    }
    vstd::set_lib::lemma_len_subset(s.to_set(), vstd::set_lib::set_int_range(lo, hi));
}

/// Pairing uses each element of either capture at most once, keeps the
/// order of the first, and pairs only elements that share a non-empty ID
/// or a non-empty lowercased content; so there are at most as many pairs
/// as the smaller capture has elements, and an element with neither is
/// never paired.
pub proof fn law_pairing_is_injective(a: Seq<SemanticElement>, b: Seq<SemanticElement>)
    ensures
        ({
            let ps = pairing(a, b, a.len() as int).0;
            &&& forall|k: int| 0 <= k < ps.len() ==> 0 <= (#[trigger] ps[k]).0 < a.len() && 0 <= ps[k].1 < b.len()
            &&& forall|k1: int, k2: int| 0 <= k1 < k2 < ps.len() ==> (#[trigger] ps[k1]).1 != (#[trigger] ps[k2]).1
                && ps[k1].0 < ps[k2].0
            &&& forall|k: int| 0 <= k < ps.len() ==> pairs_with(a[(#[trigger] ps[k]).0], b[ps[k].1])
            &&& ps.len() <= a.len()
            &&& ps.len() <= b.len()
            &&& forall|k: int|
                0 <= k < ps.len() ==> a[(#[trigger] ps[k]).0].id@.len() > 0 || lower_content(a[ps[k].0]).len() > 0
        }),
{
    let n = a.len() as int;
    lemma_pairing_props(a, b, n);
    let ps = pairing(a, b, n).0;
    let firsts = Seq::new(ps.len(), |k: int| ps[k].0);
    let seconds = Seq::new(ps.len(), |k: int| ps[k].1);
    assert(firsts.no_duplicates()) by {
        assert forall|i: int, j: int| 0 <= i < firsts.len() && 0 <= j < firsts.len() && i != j implies firsts[i]
            != firsts[j] by {
            if i < j {
                assert(ps[i].0 < ps[j].0);
            } else {
                assert(ps[j].0 < ps[i].0);
            }
        }
    }
    assert(seconds.no_duplicates()) by {
        assert forall|i: int, j: int| 0 <= i < seconds.len() && 0 <= j < seconds.len() && i != j implies seconds[i]
            != seconds[j] by {
            if i < j {
                assert(ps[i].1 != ps[j].1);
            } else {
                assert(ps[j].1 != ps[i].1);
            }
        }
    }
    assert forall|k: int| 0 <= k < firsts.len() implies 0 <= #[trigger] firsts[k] < n by {
        assert(firsts[k] == ps[k].0);
    }
    assert forall|k: int| 0 <= k < seconds.len() implies 0 <= #[trigger] seconds[k] < b.len() by {
        assert(seconds[k] == ps[k].1);
    }
    lemma_distinct_in_range(firsts, 0, n);
    lemma_distinct_in_range(seconds, 0, b.len() as int);
}

} // verus!
