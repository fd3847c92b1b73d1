//! `vdb regions`: finds known screen regions (action bar, rating row,
//! review section, ...) from token patterns over the elements of a capture,
//! and matches the regions of two captures.

use vstd::prelude::*;
use vstd::slice::slice_to_vec;

use crate::schema::{SemanticElement, SemanticSchema};
use crate::text::{
    chars_of, contains, replace_all, replace_chars, seq_contains, str_eq, string_of, to_lowercase,
    trim, trim_chars, unicode_lowercase,
};

verus! {

/// Arguments of `vdb regions`.
pub struct RegionsArgs {
    pub command: RegionsCommand,
}

/// The two region commands.
pub enum RegionsCommand {
    /// Auto-discover regions in a semantic YAML.
    Discover(DiscoverArgs),
    /// Match regions across two YAMLs.
    Match(MatchArgs),
}

pub struct DiscoverArgs {
    pub schema: String,
    pub json: bool,
}

pub struct MatchArgs {
    pub source: String,
    pub target: String,
    pub json: bool,
}

// ---------------------------------------------------------------------------
// Region definitions
// ---------------------------------------------------------------------------

/// Elements of one of `types` whose text matches one of `content_fuzzy`;
/// `count` of them are needed.
pub struct TokenPattern {
    pub types: Vec<&'static str>,
    pub content_fuzzy: Vec<&'static str>,
    pub count: usize,
}

/// A region: the patterns that make it up, and how many must be present.
pub struct RegionDef {
    pub id: &'static str,
    pub description: &'static str,
    pub required: Vec<TokenPattern>,
    pub min_required: usize,
}

#[verifier::ext_equal]
pub struct PatternSpec {
    pub types: Seq<Seq<char>>,
    pub content: Seq<Seq<char>>,
    pub count: nat,
}

#[verifier::ext_equal]
pub struct DefSpec {
    pub id: Seq<char>,
    pub description: Seq<char>,
    pub required: Seq<PatternSpec>,
    pub min_required: nat,
}

impl View for TokenPattern {
    type V = PatternSpec;

    open spec fn view(&self) -> PatternSpec {
        PatternSpec { types: self.types.deep_view(), content: self.content_fuzzy.deep_view(), count: self.count as nat }
    }
}

pub open spec fn patterns_view(ps: Seq<TokenPattern>) -> Seq<PatternSpec> {
    ps.map_values(|p: TokenPattern| p@)
}

impl View for RegionDef {
    type V = DefSpec;

    open spec fn view(&self) -> DefSpec {
        DefSpec {
            id: self.id@,
            description: self.description@,
            required: patterns_view(self.required@),
            min_required: self.min_required as nat,
        }
    }
}

pub open spec fn defs_view(ds: Seq<RegionDef>) -> Seq<DefSpec> {
    ds.map_values(|d: RegionDef| d@)
}

pub open spec fn pat(types: Seq<Seq<char>>, content: Seq<Seq<char>>, count: nat) -> PatternSpec {
    PatternSpec { types, content, count }
}

pub open spec fn def(id: Seq<char>, description: Seq<char>, required: Seq<PatternSpec>, min_required: nat) -> DefSpec {
    DefSpec { id, description, required, min_required }
}

/// The regions that discovery looks for, in order.
pub open spec fn region_table() -> Seq<DefSpec> {
    let bit = seq!["button"@, "image"@, "text"@];
    let tb = seq!["text"@, "button"@];
    let bt = seq!["button"@, "text"@];
    seq![
        def("action_bar"@, "Primary site action buttons"@, seq![
            pat(bit, seq!["save"@], 1),
            pat(bit, seq!["directions"@], 1),
            pat(bit, seq!["share"@], 1),
        ], 3),
        def("rating_row"@, "Star rating display"@, seq![
            pat(seq!["image"@, "container"@], seq!["star"@, "icon_solid_star"@, "icon_outline_star"@], 3),
        ], 1),
        def("reviews_section"@, "Reviews header with rating"@, seq![
            pat(tb, seq!["reviews"@], 1),
            pat(tb, seq!["rate this"@, "rate_this"@], 1),
        ], 2),
        def("qa_section"@, "Questions and answers section"@, seq![
            pat(tb, seq!["questions"@, "questions & answers"@], 1),
            pat(bt, seq!["post question"@, "post_question"@, "ask a question"@], 1),
        ], 2),
        def("map_cta"@, "See on map button"@, seq![pat(bt, seq!["see on map"@, "see_on_map"@], 1)], 1),
        def("social_counts"@, "Been here / Want to go counts"@, seq![
            pat(tb, seq!["been here"@, "been_here"@, "i've been here"@], 1),
        ], 1),
        def("categories_section"@, "Categories list"@, seq![pat(tb, seq!["categories"@], 1)], 1),
        def("contact_section"@, "Contact information"@, seq![pat(tb, seq!["contact us"@, "contact_us"@], 1)], 1),
    ]
}

impl TokenPattern {
    /// A pattern that one element satisfies.
    pub fn single(types: &[&'static str], content: &[&'static str]) -> (r: Self)
        ensures
            r.types@ == types@,
            r.content_fuzzy@ == content@,
            r.count == 1,
    {
        TokenPattern { types: slice_to_vec(types), content_fuzzy: slice_to_vec(content), count: 1 }
    }

    /// A pattern that needs `n` elements.
    pub fn counted(types: &[&'static str], content: &[&'static str], n: usize) -> (r: Self)
        ensures
            r.types@ == types@,
            r.content_fuzzy@ == content@,
            r.count == n,
    {
        TokenPattern { types: slice_to_vec(types), content_fuzzy: slice_to_vec(content), count: n }
    }
}

/// The regions that discovery looks for.
pub fn region_defs() -> (r: Vec<RegionDef>)
    ensures
        defs_view(r@) == region_table(),
{
    let bit: [&'static str; 3] = ["button", "image", "text"];
    let tb: [&'static str; 2] = ["text", "button"];
    let bt: [&'static str; 2] = ["button", "text"];
    let r = vec![
        RegionDef {
            id: "action_bar",
            description: "Primary site action buttons",
            required: vec![
                TokenPattern::single(&bit, &["save"]),
                TokenPattern::single(&bit, &["directions"]),
                TokenPattern::single(&bit, &["share"]),
            ],
            min_required: 3,
        },
        RegionDef {
            id: "rating_row",
            description: "Star rating display",
            required: vec![
                TokenPattern::counted(
                    &["image", "container"],
                    &["star", "icon_solid_star", "icon_outline_star"],
                    3,
                ),
            ],
            min_required: 1,
        },
        RegionDef {
            id: "reviews_section",
            description: "Reviews header with rating",
            required: vec![
                TokenPattern::single(&tb, &["reviews"]),
                TokenPattern::single(&tb, &["rate this", "rate_this"]),
            ],
            min_required: 2,
        },
        RegionDef {
            id: "qa_section",
            description: "Questions and answers section",
            required: vec![
                TokenPattern::single(&tb, &["questions", "questions & answers"]),
                TokenPattern::single(&bt, &["post question", "post_question", "ask a question"]),
            ],
            min_required: 2,
        },
        RegionDef {
            id: "map_cta",
            description: "See on map button",
            required: vec![TokenPattern::single(&bt, &["see on map", "see_on_map"])],
            min_required: 1,
        },
        RegionDef {
            id: "social_counts",
            description: "Been here / Want to go counts",
            required: vec![TokenPattern::single(&tb, &["been here", "been_here", "i've been here"])],
            min_required: 1,
        },
        RegionDef {
            id: "categories_section",
            description: "Categories list",
            required: vec![TokenPattern::single(&tb, &["categories"])],
            min_required: 1,
        },
        RegionDef {
            id: "contact_section",
            description: "Contact information",
            required: vec![TokenPattern::single(&tb, &["contact us", "contact_us"])],
            min_required: 1,
        },
    ];
    assert(defs_view(r@) =~~= region_table());
    r
}

// ---------------------------------------------------------------------------
// Token matching
// ---------------------------------------------------------------------------

pub open spec fn ive() -> Seq<char> {
    seq!['i', '\'', 'v', 'e', ' ']
}

/// Lowercase, without `i've ` (removed twice over), with `’` as `'`,
/// trimmed.
pub open spec fn normalized_content(s: Seq<char>) -> Seq<char> {
    let l = unicode_lowercase(s);
    let a = replace_all(l, ive(), Seq::empty());
    let b = replace_all(a, ive(), Seq::empty());
    trim(replace_all(b, seq!['\u{2019}'], seq!['\'']))
}

/// One of the patterns, lowercased, occurs in the normalised content, or
/// the normalised content occurs in it.
pub open spec fn fuzzy_match(content: Seq<char>, patterns: Seq<Seq<char>>) -> bool {
    let n = normalized_content(content);
    exists|k: int|
        0 <= k < patterns.len() && (seq_contains(n, unicode_lowercase(#[trigger] patterns[k]))
            || seq_contains(unicode_lowercase(patterns[k]), n))
}

/// Content matches a list of patterns exactly when, for some pattern, the
/// normalised content contains the lowercased pattern or the lowercased
/// pattern contains the normalised content; and a content that matches
/// some patterns still matches when more patterns are added.
pub proof fn law_fuzzy_match(content: Seq<char>, patterns: Seq<Seq<char>>, more: Seq<Seq<char>>)
    ensures
        forall|k: int|
            0 <= k < patterns.len() && seq_contains(normalized_content(content), unicode_lowercase(#[trigger] patterns[k]))
                ==> fuzzy_match(content, patterns),
        forall|k: int|
            0 <= k < patterns.len() && seq_contains(unicode_lowercase(#[trigger] patterns[k]), normalized_content(content))
                ==> fuzzy_match(content, patterns),
        fuzzy_match(content, patterns) ==> exists|k: int|
            0 <= k < patterns.len() && (seq_contains(
                normalized_content(content),
                unicode_lowercase(#[trigger] patterns[k]),
            ) || seq_contains(unicode_lowercase(patterns[k]), normalized_content(content))),
        fuzzy_match(content, patterns) ==> fuzzy_match(content, patterns + more),
        fuzzy_match(content, more) ==> fuzzy_match(content, patterns + more),
{
    if fuzzy_match(content, patterns) {
        let n = normalized_content(content);
        let k = choose|k: int|
            0 <= k < patterns.len() && (seq_contains(n, unicode_lowercase(#[trigger] patterns[k])) || seq_contains(
                unicode_lowercase(patterns[k]),
                n,
            ));
        assert((patterns + more)[k] == patterns[k]);
    }
    if fuzzy_match(content, more) {
        let n = normalized_content(content);
        let k = choose|k: int|
            0 <= k < more.len() && (seq_contains(n, unicode_lowercase(#[trigger] more[k])) || seq_contains(
                unicode_lowercase(more[k]),
                n,
            ));
        assert((patterns + more)[patterns.len() + k] == more[k]);
    }
}

/// The text a pattern looks at: the content, else the accessibility label,
/// else the ID.
pub open spec fn element_text(e: SemanticElement) -> Seq<char> {
    match e.content {
        Some(c) => c@,
        None => match e.a11y_label {
            Some(l) => l@,
            None => e.id@,
        },
    }
}

pub open spec fn token_ok(e: SemanticElement, p: PatternSpec) -> bool {
    &&& p.types.contains(e.elem_type@)
    &&& fuzzy_match(element_text(e), p.content)
}

/// Normalises content for fuzzy matching.
pub fn normalize_content(s: &str) -> (r: String)
    ensures
        r@ == normalized_content(s@),
{
    let lower = to_lowercase(s);
    let l = chars_of(lower.as_str());
    let pat = vec!['i', '\'', 'v', 'e', ' '];
    assert(pat@ =~= ive());
    let empty: Vec<char> = Vec::new();
    let a = replace_chars(&l, &pat, &empty);
    let b = replace_chars(&a, &pat, &empty);
    let quote = vec!['\u{2019}'];
    let apos = vec!['\''];
    assert(quote@ =~= seq!['\u{2019}']);
    assert(apos@ =~= seq!['\'']);
    let c = replace_chars(&b, &quote, &apos);
    let t = trim_chars(&c);
    string_of(&t)
}

/// Whether the content matches one of the patterns, either way round.
pub fn content_matches(content: &str, patterns: &[&str]) -> (r: bool)
    ensures
        r == fuzzy_match(content@, patterns.deep_view()),
{
    let norm = chars_of(normalize_content(content).as_str());
    let ghost ps = patterns.deep_view();
    let mut k: usize = 0;
    while k < patterns.len()
        invariant
            k <= patterns@.len(),
            ps == patterns.deep_view(),
            norm@ == normalized_content(content@),
            forall|j: int|
                0 <= j < k ==> !(seq_contains(norm@, unicode_lowercase(#[trigger] ps[j])) || seq_contains(
                    unicode_lowercase(ps[j]),
                    norm@,
                )),
        decreases patterns@.len() - k,
    {
        let p = chars_of(to_lowercase(patterns[k]).as_str());
        assert(ps[k as int] == patterns@[k as int]@);
        if contains(&norm, &p) || contains(&p, &norm) {
            return true;
        }
        k = k + 1;
    }
    false
}

/// Whether an element satisfies a pattern: its type is one of the
/// pattern's and its text matches.
pub fn token_matches(elem: &SemanticElement, pattern: &TokenPattern) -> (r: bool)
    ensures
        r == token_ok(*elem, pattern@),
{
    let ghost ts = pattern.types.deep_view();
    let mut found = false;
    let mut i: usize = 0;
    while i < pattern.types.len()
        invariant
            i <= pattern.types@.len(),
            ts == pattern.types.deep_view(),
            found == exists|j: int| 0 <= j < i && ts[j] == elem.elem_type@,
        decreases pattern.types@.len() - i,
    {
        assert(ts[i as int] == pattern.types@[i as int]@);
        if !found && str_eq(pattern.types[i], elem.elem_type.as_str()) {
            found = true;
        }
        i = i + 1;
    }
    if !found {
        assert(!ts.contains(elem.elem_type@));
        return false;
    }
    let text: &str = match &elem.content {
        Some(c) => c.as_str(),
        None => match &elem.a11y_label {
            Some(l) => l.as_str(),
            None => elem.id.as_str(),
        },
    };
    content_matches(text, pattern.content_fuzzy.as_slice())
}

// ---------------------------------------------------------------------------
// Discovery
// ---------------------------------------------------------------------------

/// The elements that satisfy a pattern, in order.
pub open spec fn hits(es: Seq<SemanticElement>, p: PatternSpec) -> Seq<SemanticElement>
    decreases es.len(),
{
    if es.len() == 0 {
        Seq::empty()
    } else if token_ok(es.last(), p) {
        hits(es.drop_last(), p).push(es.last())
    } else {
        hits(es.drop_last(), p)
    }
}

/// For the patterns of a region: how many are satisfied, and the elements
/// that satisfy them (the first `count` of each satisfied pattern).
pub open spec fn def_scan(es: Seq<SemanticElement>, required: Seq<PatternSpec>) -> (nat, Seq<SemanticElement>)
    decreases required.len(),
{
    if required.len() == 0 {
        (0, Seq::empty())
    } else {
        let prev = def_scan(es, required.drop_last());
        let p = required.last();
        let h = hits(es, p);
        if h.len() >= p.count {
            ((prev.0 + 1) as nat, prev.1 + h.take(p.count as int))
        } else {
            prev
        }
    }
}

pub open spec fn left(e: SemanticElement) -> int {
    e.bounds.x as int
}

pub open spec fn top(e: SemanticElement) -> int {
    e.bounds.y as int
}

pub open spec fn right(e: SemanticElement) -> int {
    e.bounds.x + e.bounds.w
}

pub open spec fn bottom(e: SemanticElement) -> int {
    e.bounds.y + e.bounds.h
}

/// The smallest left (`side == 0`) or top (`side == 1`) edge, 0 for no
/// element.
pub open spec fn min_edge(ms: Seq<SemanticElement>, side: int) -> int
    decreases ms.len(),
{
    if ms.len() == 0 {
        0
    } else {
        let v = if side == 0 {
            left(ms.last())
        } else {
            top(ms.last())
        };
        if ms.len() == 1 {
            v
        } else {
            let m = min_edge(ms.drop_last(), side);
            if v < m {
                v
            } else {
                m
            }
        }
    }
}

/// The largest right (`side == 0`) or bottom (`side == 1`) edge, 0 for no
/// element.
pub open spec fn max_edge(ms: Seq<SemanticElement>, side: int) -> int
    decreases ms.len(),
{
    if ms.len() == 0 {
        0
    } else {
        let v = if side == 0 {
            right(ms.last())
        } else {
            bottom(ms.last())
        };
        if ms.len() == 1 {
            v
        } else {
            let m = max_edge(ms.drop_last(), side);
            if v > m {
                v
            } else {
                m
            }
        }
    }
}

/// A discovered region.
pub struct RegionSpec {
    pub id: Seq<char>,
    pub description: Seq<char>,
    pub elements: Seq<Seq<char>>,
    pub bounds: (int, int, int, int),
    pub matched: nat,
    pub patterns: nat,
}

pub open spec fn element_ids(ms: Seq<SemanticElement>) -> Seq<Seq<char>> {
    ms.map_values(|e: SemanticElement| e.id@)
}

/// The region a definition finds among the elements, if enough of its
/// patterns are satisfied.
pub open spec fn region_found(es: Seq<SemanticElement>, d: DefSpec) -> Option<RegionSpec> {
    let (c, ms) = def_scan(es, d.required);
    if c >= d.min_required {
        let x = min_edge(ms, 0);
        let y = min_edge(ms, 1);
        Some(
            RegionSpec {
                id: d.id,
                description: d.description,
                elements: element_ids(ms),
                bounds: (x, y, max_edge(ms, 0) - x, max_edge(ms, 1) - y),
                matched: c,
                patterns: d.required.len(),
            },
        )
    } else {
        None
    }
}

/// The regions the definitions find, in definition order.
pub open spec fn regions_found(es: Seq<SemanticElement>, defs: Seq<DefSpec>) -> Seq<RegionSpec>
    decreases defs.len(),
{
    if defs.len() == 0 {
        Seq::empty()
    } else {
        let prev = regions_found(es, defs.drop_last());
        match region_found(es, defs.last()) {
            Some(r) => prev.push(r),
            None => prev,
        }
    }
}

/// A region found in a capture. Its confidence is `matched / patterns`:
/// the share of its patterns that are present.
pub struct Region {
    pub id: String,
    pub description: String,
    pub elements: Vec<String>,
    pub bounds: (i64, i64, i64, i64),
    pub matched: usize,
    pub patterns: usize,
}

impl View for Region {
    type V = RegionSpec;

    open spec fn view(&self) -> RegionSpec {
        RegionSpec {
            id: self.id@,
            description: self.description@,
            elements: self.elements.deep_view(),
            bounds: (self.bounds.0 as int, self.bounds.1 as int, self.bounds.2 as int, self.bounds.3 as int),
            matched: self.matched as nat,
            patterns: self.patterns as nat,
        }
    }
}

pub open spec fn regions_view(rs: Seq<Region>) -> Seq<RegionSpec> {
    rs.map_values(|r: Region| r@)
}

fn pattern_hits<'a>(elements: &'a Vec<SemanticElement>, pattern: &TokenPattern) -> (r: Vec<&'a SemanticElement>)
    ensures
        crate::matching::derefs(r@) == hits(elements@, pattern@),
{
    let mut out: Vec<&'a SemanticElement> = Vec::new();
    let mut i: usize = 0;
    while i < elements.len()
        invariant
            i <= elements@.len(),
            crate::matching::derefs(out@) == hits(elements@.subrange(0, i as int), pattern@),
        decreases elements@.len() - i,
    {
        proof {
            let p = elements@.subrange(0, i + 1);
            assert(p.drop_last() =~= elements@.subrange(0, i as int));
            assert(p.last() == elements@[i as int]);
        }
        let ghost before = out@;
        if token_matches(&elements[i], pattern) {
            out.push(&elements[i]);
            assert(crate::matching::derefs(out@) =~= crate::matching::derefs(before).push(elements@[i as int]));
        }
        i = i + 1;
    }
    assert(elements@.subrange(0, i as int) =~= elements@);
    out
}

fn edges(ms: &Vec<&SemanticElement>) -> (r: (i64, i64, i64, i64))
    ensures
        r.0 == min_edge(crate::matching::derefs(ms@), 0),
        r.1 == min_edge(crate::matching::derefs(ms@), 1),
        r.2 == max_edge(crate::matching::derefs(ms@), 0),
        r.3 == max_edge(crate::matching::derefs(ms@), 1),
        -0x8000_0000 <= r.0 <= 0x7fff_ffff,
        -0x8000_0000 <= r.1 <= 0x7fff_ffff,
        -0x1_0000_0000 <= r.2 <= 0xffff_fffe,
        -0x1_0000_0000 <= r.3 <= 0xffff_fffe,
{
    let ghost all = crate::matching::derefs(ms@);
    let mut x: i64 = 0;
    let mut y: i64 = 0;
    let mut rr: i64 = 0;
    let mut b: i64 = 0;
    let mut i: usize = 0;
    while i < ms.len()
        invariant
            i <= ms@.len(),
            all == crate::matching::derefs(ms@),
            x == min_edge(all.subrange(0, i as int), 0),
            y == min_edge(all.subrange(0, i as int), 1),
            rr == max_edge(all.subrange(0, i as int), 0),
            b == max_edge(all.subrange(0, i as int), 1),
            -0x8000_0000 <= x <= 0x7fff_ffff,
            -0x8000_0000 <= y <= 0x7fff_ffff,
            -0x1_0000_0000 <= rr <= 0xffff_fffe,
            -0x1_0000_0000 <= b <= 0xffff_fffe,
        decreases ms@.len() - i,
    {
        let e = ms[i];
        let ghost p = all.subrange(0, i + 1);
        proof {
            assert(p.drop_last() =~= all.subrange(0, i as int));
            assert(p.last() == *e);
        }
        let l = e.bounds.x as i64;
        let t = e.bounds.y as i64;
        let r2 = e.bounds.x as i64 + e.bounds.w as i64;
        let b2 = e.bounds.y as i64 + e.bounds.h as i64;
        if i == 0 {
            x = l;
            y = t;
            rr = r2;
            b = b2;
        } else {
            if l < x {
                x = l;
            }
            if t < y {
                y = t;
            }
            if r2 > rr {
                rr = r2;
            }
            if b2 > b {
                b = b2;
            }
        }
        i = i + 1;
    }
    assert(all.subrange(0, i as int) =~= all);
    (x, y, rr, b)
}

fn ids_of(ms: &Vec<&SemanticElement>) -> (r: Vec<String>)
    ensures
        r.deep_view() == element_ids(crate::matching::derefs(ms@)),
{
    let mut out: Vec<String> = Vec::new();
    let mut i: usize = 0;
    while i < ms.len()
        invariant
            i <= ms@.len(),
            out@.len() == i,
            forall|k: int| 0 <= k < i ==> (#[trigger] out@[k])@ == ms@[k].id@,
        decreases ms@.len() - i,
    {
        out.push(ms[i].id.clone());
        i = i + 1;
    }
    assert(out.deep_view() =~= element_ids(crate::matching::derefs(ms@)));
    out
}

fn find_region(elements: &Vec<SemanticElement>, d: &RegionDef) -> (r: Option<Region>)
    ensures
        match r {
            Some(x) => region_found(elements@, d@) == Some(x@),
            None => region_found(elements@, d@) is None,
        },
{
    let ghost req = patterns_view(d.required@);
    let mut matched: Vec<&SemanticElement> = Vec::new();
    let mut count: usize = 0;
    let mut k: usize = 0;
    while k < d.required.len()
        invariant
            k <= d.required@.len(),
            req == patterns_view(d.required@),
            count == def_scan(elements@, req.subrange(0, k as int)).0,
            crate::matching::derefs(matched@) == def_scan(elements@, req.subrange(0, k as int)).1,
            count <= k,
        decreases d.required@.len() - k,
    {
        let pattern = &d.required[k];
        proof {
            let p = req.subrange(0, k + 1);
            assert(p.drop_last() =~= req.subrange(0, k as int));
            assert(p.last() == pattern@);
        }
        let h = pattern_hits(elements, pattern);
        if h.len() >= pattern.count {
            count = count + 1;
            let ghost before = crate::matching::derefs(matched@);
            let mut j: usize = 0;
            while j < pattern.count
                invariant
                    j <= pattern.count <= h@.len(),
                    crate::matching::derefs(matched@) == before + crate::matching::derefs(h@).take(j as int),
                decreases pattern.count - j,
            {
                let ghost bm = matched@;
                matched.push(h[j]);
                assert(matched@ == bm.push(h@[j as int]));
                assert(crate::matching::derefs(matched@) =~= crate::matching::derefs(bm).push(*h@[j as int]));
                assert(crate::matching::derefs(h@).take(j + 1) =~= crate::matching::derefs(h@).take(j as int).push(*h@[j as int]));
                assert(crate::matching::derefs(matched@) =~= before + crate::matching::derefs(h@).take(j + 1));
                j = j + 1;
            }
        }
        k = k + 1;
    }
    assert(req.subrange(0, k as int) =~= req);
    if count >= d.min_required {
        let (x, y, r, b) = edges(&matched);
        Some(Region {
            id: d.id.to_owned(),
            description: d.description.to_owned(),
            elements: ids_of(&matched),
            bounds: (x, y, r - x, b - y),
            matched: count,
            patterns: d.required.len(),
        })
    } else {
        None
    }
}

/// The regions of a capture, in definition order.
pub fn discover_regions(schema: &SemanticSchema) -> (r: Vec<Region>)
    ensures
        regions_view(r@) == regions_found(schema.elements@, region_table()),
{
    let defs = region_defs();
    let ghost dv = defs_view(defs@);
    let mut regions: Vec<Region> = Vec::new();
    let mut k: usize = 0;
    while k < defs.len()
        invariant
            k <= defs@.len(),
            dv == defs_view(defs@),
            dv == region_table(),
            regions_view(regions@) == regions_found(schema.elements@, dv.subrange(0, k as int)),
        decreases defs@.len() - k,
    {
        proof {
            let p = dv.subrange(0, k + 1);
            assert(p.drop_last() =~= dv.subrange(0, k as int));
            assert(p.last() == defs@[k as int]@);
        }
        let ghost before = regions@;
        match find_region(&schema.elements, &defs[k]) {
            Some(region) => {
                regions.push(region);
                assert(regions_view(regions@) =~= regions_view(before).push(region@));
            },
            None => {},
        }
        k = k + 1;
    }
    assert(dv.subrange(0, k as int) =~= dv);
    regions
}

// ---------------------------------------------------------------------------
// Matching the regions of two captures
// ---------------------------------------------------------------------------

pub open spec fn region_ids(rs: Seq<RegionSpec>) -> Seq<Seq<char>> {
    rs.map_values(|r: RegionSpec| r.id)
}

/// The first region at or after `from` with the given ID.
pub open spec fn first_region(rs: Seq<RegionSpec>, id: Seq<char>, from: int) -> Option<int>
    decreases rs.len() - from,
{
    if from < 0 || from >= rs.len() {
        None
    } else if rs[from].id == id {
        Some(from)
    } else {
        first_region(rs, id, from + 1)
    }
}

pub proof fn lemma_first_region(rs: Seq<RegionSpec>, id: Seq<char>, from: int)
    requires
        0 <= from,
    ensures
        first_region(rs, id, from) matches Some(i) ==> from <= i < rs.len() && rs[i].id == id
            && forall|k: int| from <= k < i ==> rs[k].id != id,
        first_region(rs, id, from) is None ==> forall|k: int| from <= k < rs.len() ==> rs[k].id != id,
    decreases rs.len() - from,
{
    if from < rs.len() && rs[from].id != id {
        lemma_first_region(rs, id, from + 1);
    }
}

/// One region found in both captures.
pub struct MatchedSpec {
    pub id: Seq<char>,
    pub source_elements: nat,
    pub target_elements: nat,
    pub dy: nat,
    pub dh: nat,
}

pub open spec fn abs_diff(a: int, b: int) -> nat {
    if a >= b {
        (a - b) as nat
    } else {
        (b - a) as nat
    }
}

pub open spec fn matched_spec(s: RegionSpec, t: RegionSpec) -> MatchedSpec {
    MatchedSpec {
        id: s.id,
        source_elements: s.elements.len(),
        target_elements: t.elements.len(),
        dy: abs_diff(s.bounds.1, t.bounds.1),
        dh: abs_diff(s.bounds.3, t.bounds.3),
    }
}

/// The regions of `a` (each ID once, first occurrence) that `b` also has,
/// each paired with the first region of `b` with its ID.
pub open spec fn common_regions(a: Seq<RegionSpec>, b: Seq<RegionSpec>) -> Seq<MatchedSpec>
    decreases a.len(),
{
    if a.len() == 0 {
        Seq::empty()
    } else {
        let prev = common_regions(a.drop_last(), b);
        let r = a.last();
        if region_ids(a.drop_last()).contains(r.id) {
            prev
        } else {
            match first_region(b, r.id, 0) {
                Some(j) => prev.push(matched_spec(r, b[j])),
                None => prev,
            }
        }
    }
}

/// The IDs of `a` (each once, in order) that `b` lacks.
pub open spec fn only_in(a: Seq<RegionSpec>, b: Seq<RegionSpec>) -> Seq<Seq<char>>
    decreases a.len(),
{
    if a.len() == 0 {
        Seq::empty()
    } else {
        let prev = only_in(a.drop_last(), b);
        let id = a.last().id;
        if region_ids(a.drop_last()).contains(id) || region_ids(b).contains(id) {
            prev
        } else {
            prev.push(id)
        }
    }
}

/// A region found in both captures, with the drift of its top edge and
/// height.
pub struct MatchedRegion {
    pub id: String,
    pub source_elements: usize,
    pub target_elements: usize,
    pub dy: u128,
    pub dh: u128,
}

impl View for MatchedRegion {
    type V = MatchedSpec;

    open spec fn view(&self) -> MatchedSpec {
        MatchedSpec {
            id: self.id@,
            source_elements: self.source_elements as nat,
            target_elements: self.target_elements as nat,
            dy: self.dy as nat,
            dh: self.dh as nat,
        }
    }
}

pub open spec fn matched_view(ms: Seq<MatchedRegion>) -> Seq<MatchedSpec> {
    ms.map_values(|m: MatchedRegion| m@)
}

/// The regions two captures share, and those only one of them has.
pub struct RegionMatch {
    pub matched: Vec<MatchedRegion>,
    pub source_only: Vec<String>,
    pub target_only: Vec<String>,
}

fn has_region_id(rs: &Vec<Region>, n: usize, id: &str) -> (r: bool)
    requires
        n <= rs@.len(),
    ensures
        r == region_ids(regions_view(rs@).subrange(0, n as int)).contains(id@),
{
    let ghost v = region_ids(regions_view(rs@).subrange(0, n as int));
    let mut i: usize = 0;
    while i < n
        invariant
            i <= n <= rs@.len(),
            v == region_ids(regions_view(rs@).subrange(0, n as int)),
            forall|k: int| 0 <= k < i ==> v[k] != id@,
        decreases n - i,
    {
        assert(v[i as int] == rs@[i as int].id@);
        if str_eq(rs[i].id.as_str(), id) {
            assert(v[i as int] == id@);
            return true;
        }
        i = i + 1;
    }
    false
}

fn find_region_by_id(rs: &Vec<Region>, id: &str) -> (r: Option<usize>)
    ensures
        match r {
            Some(j) => first_region(regions_view(rs@), id@, 0) == Some(j as int),
            None => first_region(regions_view(rs@), id@, 0) is None,
        },
{
    let ghost v = regions_view(rs@);
    let mut i: usize = 0;
    while i < rs.len()
        invariant
            i <= rs@.len(),
            v == regions_view(rs@),
            first_region(v, id@, 0) == first_region(v, id@, i as int),
        decreases rs@.len() - i,
    {
        assert(v[i as int] == rs@[i as int]@);
        if str_eq(rs[i].id.as_str(), id) {
            return Some(i);
        }
        i = i + 1;
    }
    None
}

fn abs_diff_i64(a: i64, b: i64) -> (r: u128)
    ensures
        r == abs_diff(a as int, b as int),
{
    let d = a as i128 - b as i128;
    if d >= 0 {
        d as u128
    } else {
        (-d) as u128
    }
}

/// Matches the regions of two captures by ID: those both have (each with
/// the drift of its top edge and height), those only the source has, and
/// those only the target has, each in the order of its capture.
pub fn match_regions(src: &Vec<Region>, tgt: &Vec<Region>) -> (r: RegionMatch)
    ensures
        matched_view(r.matched@) == common_regions(regions_view(src@), regions_view(tgt@)),
        r.source_only.deep_view() == only_in(regions_view(src@), regions_view(tgt@)),
        r.target_only.deep_view() == only_in(regions_view(tgt@), regions_view(src@)),
{
    let ghost a = regions_view(src@);
    let ghost b = regions_view(tgt@);
    let mut matched: Vec<MatchedRegion> = Vec::new();
    let mut source_only: Vec<String> = Vec::new();
    let mut i: usize = 0;
    while i < src.len()
        invariant
            i <= src@.len(),
            a == regions_view(src@),
            b == regions_view(tgt@),
            matched_view(matched@) == common_regions(a.subrange(0, i as int), b),
            source_only.deep_view() == only_in(a.subrange(0, i as int), b),
        decreases src@.len() - i,
    {
        let ghost p = a.subrange(0, i + 1);
        proof {
            assert(p.drop_last() =~= a.subrange(0, i as int));
            assert(p.last() == src@[i as int]@);
            assert(region_ids(b) == region_ids(regions_view(tgt@).subrange(0, tgt@.len() as int))) by {
                assert(regions_view(tgt@).subrange(0, tgt@.len() as int) =~= b);
            }
        }
        let r = &src[i];
        let seen = has_region_id(src, i, r.id.as_str());
        if !seen {
            match find_region_by_id(tgt, r.id.as_str()) {
                Some(j) => {
                    proof {
                        lemma_first_region(b, r.id@, 0);
                    }
                    let t = &tgt[j];
                    let m = MatchedRegion {
                        id: r.id.clone(),
                        source_elements: r.elements.len(),
                        target_elements: t.elements.len(),
                        dy: abs_diff_i64(r.bounds.1, t.bounds.1),
                        dh: abs_diff_i64(r.bounds.3, t.bounds.3),
                    };
                    let ghost before = matched@;
                    assert(m@ == matched_spec(a[i as int], b[j as int]));
                    matched.push(m);
                    assert(matched_view(matched@) =~= matched_view(before).push(m@));
                    assert(region_ids(b)[j as int] == r.id@);
                },
                None => {
                    proof {
                        lemma_first_region(b, r.id@, 0);
                        assert(!region_ids(b).contains(r.id@)) by {
                            if region_ids(b).contains(r.id@) {
                                let k = choose|k: int| 0 <= k < region_ids(b).len() && region_ids(b)[k] == r.id@;
                                assert(b[k].id == r.id@);
                            }
                        }
                    }
                    let ghost before = source_only.deep_view();
                    source_only.push(r.id.clone());
                    assert(source_only.deep_view() =~= before.push(r.id@));
                },
            }
        }
        i = i + 1;
    }
    proof {
        assert(a.subrange(0, i as int) =~= a);
    }
    let mut target_only: Vec<String> = Vec::new();
    let mut k: usize = 0;
    while k < tgt.len()
        invariant
            k <= tgt@.len(),
            a == regions_view(src@),
            b == regions_view(tgt@),
            target_only.deep_view() == only_in(b.subrange(0, k as int), a),
        decreases tgt@.len() - k,
    {
        let ghost p = b.subrange(0, k + 1);
        proof {
            assert(p.drop_last() =~= b.subrange(0, k as int));
            assert(p.last() == tgt@[k as int]@);
            assert(regions_view(src@).subrange(0, src@.len() as int) =~= a);
        }
        let r = &tgt[k];
        let seen = has_region_id(tgt, k, r.id.as_str());
        let in_src = has_region_id(src, src.len(), r.id.as_str());
        if !seen && !in_src {
            let ghost before = target_only.deep_view();
            target_only.push(r.id.clone());
            assert(target_only.deep_view() =~= before.push(r.id@));
        }
        k = k + 1;
    }
    proof {
        assert(b.subrange(0, k as int) =~= b);
    }
    RegionMatch { matched, source_only, target_only }
}

/// The drift note of a matched region: ` (drift: {dy}dp y, {dh}dp h)` when
/// the top edge or the height moved more than 4dp, else nothing.
pub open spec fn drift_text(dy: nat, dh: nat) -> Seq<char> {
    if dy > 4 || dh > 4 {
        " (drift: "@ + crate::numfmt::nat_str(dy) + "dp y, "@ + crate::numfmt::nat_str(dh) + "dp h)"@
    } else {
        Seq::empty()
    }
}

/// The drift note of a matched region.
pub fn drift_note(dy: u128, dh: u128) -> (r: String)
    ensures
        r@ == drift_text(dy as nat, dh as nat),
{
    if dy > 4 || dh > 4 {
        let mut m = chars_of(" (drift: ");
        crate::text::append_chars(&mut m, &crate::numfmt::fmt_nat(dy));
        crate::text::append_str(&mut m, "dp y, ");
        crate::text::append_chars(&mut m, &crate::numfmt::fmt_nat(dh));
        crate::text::append_str(&mut m, "dp h)");
        string_of(&m)
    } else {
        String::new()
    }
}

pub open spec fn common_ids(a: Seq<RegionSpec>, b: Seq<RegionSpec>) -> Seq<Seq<char>> {
    common_regions(a, b).map_values(|m: MatchedSpec| m.id)
}

proof fn lemma_ids_push(a: Seq<RegionSpec>, id: Seq<char>)
    requires
        a.len() > 0,
    ensures
        region_ids(a).contains(id) <==> (region_ids(a.drop_last()).contains(id) || a.last().id == id),
{
    let p = a.drop_last();
    if region_ids(a).contains(id) {
        let k = choose|k: int| 0 <= k < region_ids(a).len() && region_ids(a)[k] == id;
        if k < p.len() {
            assert(region_ids(p)[k] == id);
        }
    }
    if region_ids(p).contains(id) {
        let k = choose|k: int| 0 <= k < region_ids(p).len() && region_ids(p)[k] == id;
        assert(region_ids(a)[k] == id);
    }
    if a.last().id == id {
        assert(region_ids(a)[a.len() - 1] == id);
    }
}

proof fn lemma_in_b(b: Seq<RegionSpec>, id: Seq<char>)
    ensures
        region_ids(b).contains(id) <==> first_region(b, id, 0) is Some,
{
    lemma_first_region(b, id, 0);
    if region_ids(b).contains(id) {
        let k = choose|k: int| 0 <= k < region_ids(b).len() && region_ids(b)[k] == id;
        assert(b[k].id == id);
    }
    if first_region(b, id, 0) is Some {
        let j = first_region(b, id, 0)->0;
        assert(region_ids(b)[j] == id);
    }
}

proof fn lemma_push_contains(s: Seq<Seq<char>>, x: Seq<char>, y: Seq<char>)
    ensures
        s.push(x).contains(y) <==> (s.contains(y) || x == y),
{
    if s.push(x).contains(y) {
        let k = choose|k: int| 0 <= k < s.push(x).len() && s.push(x)[k] == y;
        if k < s.len() {
            assert(s[k] == y);
        }
    }
    if s.contains(y) {
        let k = choose|k: int| 0 <= k < s.len() && s[k] == y;
        assert(s.push(x)[k] == y);
    }
    if x == y {
        assert(s.push(x)[s.len() as int] == y);
    }
}

proof fn lemma_common_ids(a: Seq<RegionSpec>, b: Seq<RegionSpec>, id: Seq<char>)
    ensures
        common_ids(a, b).contains(id) <==> region_ids(a).contains(id) && region_ids(b).contains(id),
    decreases a.len(),
{
    if a.len() == 0 {
        assert(common_ids(a, b) =~= Seq::<Seq<char>>::empty());
    } else {
        let p = a.drop_last();
        let last = a.last();
        lemma_common_ids(p, b, id);
        lemma_ids_push(a, id);
        lemma_in_b(b, last.id);
        lemma_in_b(b, id);
        if region_ids(p).contains(last.id) {
            assert(common_ids(a, b) =~= common_ids(p, b));
            if id == last.id {
                lemma_common_ids(p, b, id);
            }
        } else {
            match first_region(b, last.id, 0) {
                Some(j) => {
                    assert(common_ids(a, b) =~= common_ids(p, b).push(last.id));
                    lemma_push_contains(common_ids(p, b), last.id, id);
                },
                None => {
                    assert(common_ids(a, b) =~= common_ids(p, b));
                },
            }
        }
    }
}

proof fn lemma_only_ids(a: Seq<RegionSpec>, b: Seq<RegionSpec>, id: Seq<char>)
    ensures
        only_in(a, b).contains(id) <==> region_ids(a).contains(id) && !region_ids(b).contains(id),
    decreases a.len(),
{
    if a.len() > 0 {
        let p = a.drop_last();
        lemma_only_ids(p, b, id);
        lemma_ids_push(a, id);
        let prev = only_in(p, b);
        if only_in(a, b).len() == prev.len() + 1 {
            assert(only_in(a, b) == prev.push(a.last().id));
            if only_in(a, b).contains(id) && !prev.contains(id) {
                let k = choose|k: int| 0 <= k < only_in(a, b).len() && only_in(a, b)[k] == id;
                assert(k == prev.len());
            }
            if prev.contains(id) {
                let k = choose|k: int| 0 <= k < prev.len() && prev[k] == id;
                assert(only_in(a, b)[k] == id);
            }
            if a.last().id == id {
                assert(only_in(a, b)[prev.len() as int] == id);
            }
        }
    }
}

/// Region matching partitions the IDs: an ID of the source is matched
/// exactly when the target has it too, and is source-only exactly when the
/// target lacks it; likewise for the target; and no list names an ID that
/// its capture does not have.
pub proof fn law_region_partition(a: Seq<RegionSpec>, b: Seq<RegionSpec>, id: Seq<char>)
    ensures
        common_ids(a, b).contains(id) <==> region_ids(a).contains(id) && region_ids(b).contains(id),
        only_in(a, b).contains(id) <==> region_ids(a).contains(id) && !region_ids(b).contains(id),
        only_in(b, a).contains(id) <==> region_ids(b).contains(id) && !region_ids(a).contains(id),
        !(common_ids(a, b).contains(id) && only_in(a, b).contains(id)),
        !(common_ids(a, b).contains(id) && only_in(b, a).contains(id)),
{
    lemma_common_ids(a, b, id);
    lemma_only_ids(a, b, id);
    lemma_only_ids(b, a, id);
}

proof fn lemma_region_lists_distinct(a: Seq<RegionSpec>, b: Seq<RegionSpec>)
    ensures
        common_ids(a, b).no_duplicates(),
        only_in(a, b).no_duplicates(),
    decreases a.len(),
{
    if a.len() > 0 {
        let p = a.drop_last();
        let id = a.last().id;
        lemma_region_lists_distinct(p, b);
        law_region_partition(p, b, id);
        let c = common_ids(a, b);
        let cp = common_ids(p, b);
        if c.len() != cp.len() {
            assert(c =~= cp.push(id));
        } else {
            assert(c =~= cp);
        }
        let o = only_in(a, b);
        let op = only_in(p, b);
        if o.len() != op.len() {
            assert(o =~= op.push(id));
        }
    }
}

/// As sets, region matching gives the IDs both captures have, those only
/// the source has, and those only the target has; each list names an ID
/// once.
pub proof fn law_region_sets(a: Seq<RegionSpec>, b: Seq<RegionSpec>)
    ensures
        common_ids(a, b).to_set() == region_ids(a).to_set().intersect(region_ids(b).to_set()),
        only_in(a, b).to_set() == region_ids(a).to_set().difference(region_ids(b).to_set()),
        only_in(b, a).to_set() == region_ids(b).to_set().difference(region_ids(a).to_set()),
        common_ids(a, b).no_duplicates(),
        only_in(a, b).no_duplicates(),
        only_in(b, a).no_duplicates(),
{
    assert forall|id: Seq<char>| #[trigger] common_ids(a, b).to_set().contains(id) == region_ids(a).to_set().intersect(
        region_ids(b).to_set(),
    ).contains(id) by {
        law_region_partition(a, b, id);
    }
    assert forall|id: Seq<char>| #[trigger] only_in(a, b).to_set().contains(id) == region_ids(a).to_set().difference(
        region_ids(b).to_set(),
    ).contains(id) by {
        law_region_partition(a, b, id);
    }
    assert forall|id: Seq<char>| #[trigger] only_in(b, a).to_set().contains(id) == region_ids(b).to_set().difference(
        region_ids(a).to_set(),
    ).contains(id) by {
        law_region_partition(a, b, id);
    }
    assert(common_ids(a, b).to_set() =~= region_ids(a).to_set().intersect(region_ids(b).to_set()));
    assert(only_in(a, b).to_set() =~= region_ids(a).to_set().difference(region_ids(b).to_set()));
    assert(only_in(b, a).to_set() =~= region_ids(b).to_set().difference(region_ids(a).to_set()));
    lemma_region_lists_distinct(a, b);
    lemma_region_lists_distinct(b, a);
}

/// The IDs of the region definitions.
pub open spec fn def_ids(defs: Seq<DefSpec>) -> Seq<Seq<char>> {
    defs.map_values(|d: DefSpec| d.id)
}

/// A region's box is the least box that holds the boxes of its elements:
/// every element lies inside it, and each of its four edges is the edge of
/// some element.
pub proof fn law_region_box_is_least(ms: Seq<SemanticElement>)
    requires
        ms.len() > 0,
    ensures
        forall|k: int|
            0 <= k < ms.len() ==> min_edge(ms, 0) <= left(#[trigger] ms[k]) && min_edge(ms, 1) <= top(ms[k])
                && right(ms[k]) <= max_edge(ms, 0) && bottom(ms[k]) <= max_edge(ms, 1),
        exists|k: int| 0 <= k < ms.len() && min_edge(ms, 0) == left(#[trigger] ms[k]),
        exists|k: int| 0 <= k < ms.len() && min_edge(ms, 1) == top(#[trigger] ms[k]),
        exists|k: int| 0 <= k < ms.len() && max_edge(ms, 0) == right(#[trigger] ms[k]),
        exists|k: int| 0 <= k < ms.len() && max_edge(ms, 1) == bottom(#[trigger] ms[k]),
    decreases ms.len(),
{
    if ms.len() > 1 {
        let p = ms.drop_last();
        law_region_box_is_least(p);
        assert forall|k: int| 0 <= k < p.len() implies p[k] == ms[k] by {}
        let last = ms.len() - 1;
        assert(ms[last] == ms.last());
        if left(ms.last()) >= min_edge(p, 0) {
            let k = choose|k: int| 0 <= k < p.len() && min_edge(p, 0) == left(#[trigger] p[k]);
            assert(ms[k] == p[k]);
        }
        if top(ms.last()) >= min_edge(p, 1) {
            let k = choose|k: int| 0 <= k < p.len() && min_edge(p, 1) == top(#[trigger] p[k]);
            assert(ms[k] == p[k]);
        }
        if right(ms.last()) <= max_edge(p, 0) {
            let k = choose|k: int| 0 <= k < p.len() && max_edge(p, 0) == right(#[trigger] p[k]);
            assert(ms[k] == p[k]);
        }
        if bottom(ms.last()) <= max_edge(p, 1) {
            let k = choose|k: int| 0 <= k < p.len() && max_edge(p, 1) == bottom(#[trigger] p[k]);
            assert(ms[k] == p[k]);
        }
    } else {
        assert(ms[0] == ms.last());
    }
}

/// Discovery finds each definition's region at most once and in
/// definition order: a definition's ID is among the IDs found exactly when
/// its region is found, every region found is its definition's region,
/// and with distinct definition IDs the IDs found are distinct.
pub proof fn law_discovered_regions(es: Seq<SemanticElement>, defs: Seq<DefSpec>)
    requires
        def_ids(defs).no_duplicates(),
    ensures
        region_ids(regions_found(es, defs)).no_duplicates(),
        forall|i: int|
            0 <= i < defs.len() ==> (region_ids(regions_found(es, defs)).contains(#[trigger] defs[i].id) <==> region_found(
                es,
                defs[i],
            ) is Some),
        forall|k: int|
            0 <= k < regions_found(es, defs).len() ==> exists|i: int|
                0 <= i < defs.len() && region_found(es, #[trigger] defs[i]) == Some(#[trigger] regions_found(es, defs)[k]),
    decreases defs.len(),
{
    if defs.len() > 0 {
        let p = defs.drop_last();
        let d = defs.last();
        assert(def_ids(p).no_duplicates()) by {
            assert forall|a: int, b: int| 0 <= a < b < def_ids(p).len() implies def_ids(p)[a] != def_ids(p)[b] by {
                assert(def_ids(p)[a] == def_ids(defs)[a] && def_ids(p)[b] == def_ids(defs)[b]);
            }
        }
        law_discovered_regions(es, p);
        let prev = regions_found(es, p);
        let cur = regions_found(es, defs);
        assert forall|i: int| 0 <= i < p.len() implies #[trigger] p[i] == defs[i] by {}
        assert(defs[defs.len() - 1] == d);
        assert(!region_ids(prev).contains(d.id)) by {
            if region_ids(prev).contains(d.id) {
                let k = choose|k: int| 0 <= k < region_ids(prev).len() && region_ids(prev)[k] == d.id;
                let i = choose|i: int| 0 <= i < p.len() && region_found(es, #[trigger] p[i]) == Some(prev[k]);
                assert(def_ids(defs)[i] == def_ids(defs)[defs.len() - 1]);
            }
        }
        match region_found(es, d) {
            Some(r) => {
                assert(cur == prev.push(r));
                assert(region_ids(cur) =~= region_ids(prev).push(r.id));
                assert(r.id == d.id);
                assert(region_ids(cur)[prev.len() as int] == d.id);
                assert forall|i: int| 0 <= i < defs.len() implies (region_ids(cur).contains(#[trigger] defs[i].id)
                    <==> region_found(es, defs[i]) is Some) by {
                    if i == defs.len() - 1 {
                        assert(region_ids(cur).contains(d.id));
                    } else {
                        assert(p[i] == defs[i]);
                        assert(region_ids(prev).contains(p[i].id) <==> region_found(es, p[i]) is Some);
                        assert(def_ids(defs)[i] != def_ids(defs)[defs.len() - 1]);
                        if region_ids(cur).contains(defs[i].id) {
                            let k = choose|k: int| 0 <= k < region_ids(cur).len() && region_ids(cur)[k] == defs[i].id;
                            assert(k < prev.len());
                            assert(region_ids(prev)[k] == defs[i].id);
                        }
                        if region_ids(prev).contains(defs[i].id) {
                            let k = choose|k: int| 0 <= k < region_ids(prev).len() && region_ids(prev)[k] == defs[i].id;
                            assert(region_ids(cur)[k] == defs[i].id);
                        }
                    }
                }
                assert forall|k: int| 0 <= k < cur.len() implies exists|i: int|
                    0 <= i < defs.len() && region_found(es, #[trigger] defs[i]) == Some(#[trigger] cur[k]) by {
                    if k < prev.len() {
                        let i = choose|i: int| 0 <= i < p.len() && region_found(es, #[trigger] p[i]) == Some(prev[k]);
                        assert(cur[k] == prev[k]);
                        assert(defs[i] == p[i]);
                    } else {
                        assert(cur[k] == r);
                        assert(region_found(es, defs[defs.len() - 1]) == Some(cur[k]));
                    }
                }
            },
            None => {
                assert(cur == prev);
                assert forall|i: int| 0 <= i < defs.len() implies (region_ids(cur).contains(#[trigger] defs[i].id)
                    <==> region_found(es, defs[i]) is Some) by {
                    if i < p.len() {
                        assert(defs[i] == p[i]);
                    }
                }
                assert forall|k: int| 0 <= k < cur.len() implies exists|i: int|
                    0 <= i < defs.len() && region_found(es, #[trigger] defs[i]) == Some(#[trigger] cur[k]) by {
                    let i = choose|i: int| 0 <= i < p.len() && region_found(es, #[trigger] p[i]) == Some(prev[k]);
                    assert(defs[i] == p[i]);
                }
            },
        }
    }
}

/// A pattern is satisfied when at least `count` elements meet it.
pub open spec fn satisfied(es: Seq<SemanticElement>, p: PatternSpec) -> bool {
    hits(es, p).len() >= p.count
}

/// The satisfied patterns of a definition, in order.
pub open spec fn satisfied_patterns(es: Seq<SemanticElement>, required: Seq<PatternSpec>) -> Seq<PatternSpec> {
    required.filter(|p: PatternSpec| satisfied(es, p))
}

/// The first `count` elements meeting each satisfied pattern, pattern by
/// pattern.
pub open spec fn chosen_elements(es: Seq<SemanticElement>, required: Seq<PatternSpec>) -> Seq<SemanticElement> {
    satisfied_patterns(es, required).map_values(|p: PatternSpec| hits(es, p).take(p.count as int)).flatten()
}

proof fn lemma_hits_filter(es: Seq<SemanticElement>, p: PatternSpec)
    ensures
        hits(es, p) == es.filter(|e: SemanticElement| token_ok(e, p)),
    decreases es.len(),
{
    reveal(Seq::filter);
    if es.len() > 0 {
        lemma_hits_filter(es.drop_last(), p);
    }
}

proof fn lemma_def_scan(es: Seq<SemanticElement>, required: Seq<PatternSpec>)
    ensures
        def_scan(es, required).0 == satisfied_patterns(es, required).len(),
        def_scan(es, required).1 == satisfied_patterns(es, required).map_values(
            |p: PatternSpec| hits(es, p).take(p.count as int),
        ).flatten_alt(),
    decreases required.len(),
{
    reveal(Seq::filter);
    let f = |p: PatternSpec| satisfied(es, p);
    let g = |p: PatternSpec| hits(es, p).take(p.count as int);
    if required.len() == 0 {
        assert(satisfied_patterns(es, required) =~= Seq::<PatternSpec>::empty());
        assert(Seq::<PatternSpec>::empty().map_values(g) =~= Seq::<Seq<SemanticElement>>::empty());
    } else {
        let r = required.drop_last();
        let p = required.last();
        lemma_def_scan(es, r);
        let sp = satisfied_patterns(es, r);
        if satisfied(es, p) {
            assert(satisfied_patterns(es, required) == sp.push(p));
            let m = sp.push(p).map_values(g);
            assert(m.drop_last() =~= sp.map_values(g));
            assert(m.last() == g(p));
        } else {
            assert(satisfied_patterns(es, required) == sp);
        }
    }
}

/// What a definition finds, stated directly: the number of its patterns
/// that at least `count` elements meet decides whether the region is found
/// (at least `min_required`); the region then reports that number over the
/// number of patterns, lists the IDs of the first `count` elements meeting
/// each satisfied pattern, pattern by pattern, and its box is the least box
/// holding theirs. An element meets a pattern by `token_ok`, in element
/// order.
pub proof fn law_region_found(es: Seq<SemanticElement>, d: DefSpec)
    ensures
        forall|p: PatternSpec| #[trigger] hits(es, p) == es.filter(|e: SemanticElement| token_ok(e, p)),
        (region_found(es, d) is Some) <==> satisfied_patterns(es, d.required).len() >= d.min_required,
        region_found(es, d) matches Some(r) ==> {
            let ms = chosen_elements(es, d.required);
            &&& r.id == d.id
            &&& r.description == d.description
            &&& r.matched == satisfied_patterns(es, d.required).len()
            &&& r.patterns == d.required.len()
            &&& r.elements == element_ids(ms)
            &&& r.bounds == (min_edge(ms, 0), min_edge(ms, 1), max_edge(ms, 0) - min_edge(ms, 0), max_edge(ms, 1)
                - min_edge(ms, 1))
        },
{
    assert forall|p: PatternSpec| #[trigger] hits(es, p) == es.filter(|e: SemanticElement| token_ok(e, p)) by {
        lemma_hits_filter(es, p);
    }
    lemma_def_scan(es, d.required);
    satisfied_patterns(es, d.required).map_values(|p: PatternSpec| hits(es, p).take(p.count as int))
        .lemma_flatten_and_flatten_alt_are_equivalent();
}

/// The definitions that discovery uses have distinct IDs, so the regions
/// it finds in a capture have distinct IDs.
pub proof fn law_region_table_ids_distinct()
    ensures
        def_ids(region_table()).no_duplicates(),
{
    reveal_strlit("action_bar");
    reveal_strlit("rating_row");
    reveal_strlit("reviews_section");
    reveal_strlit("qa_section");
    reveal_strlit("map_cta");
    reveal_strlit("social_counts");
    reveal_strlit("categories_section");
    reveal_strlit("contact_section");
    let ids = def_ids(region_table());
    assert(ids[0] == "action_bar"@);
    assert(ids[1] == "rating_row"@);
    assert(ids[2] == "reviews_section"@);
    assert(ids[3] == "qa_section"@);
    assert(ids[4] == "map_cta"@);
    assert(ids[5] == "social_counts"@);
    assert(ids[6] == "categories_section"@);
    assert(ids[7] == "contact_section"@);
    assert forall|a: int, b: int| 0 <= a < b < ids.len() implies ids[a] != ids[b] by {
        if ids[a] == ids[b] {
            assert(ids[a].len() == ids[b].len());
            assert(ids[a][0] == ids[b][0]);
            assert(ids[a][1] == ids[b][1]);
        }
    }
}

} // verus!
