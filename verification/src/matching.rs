//! Three-pass element matching between two captures of the same screen:
//! first by exact ID, then by content text (exact, count-stripped, or
//! contained), then by type and position proximity.

use vstd::prelude::*;

use crate::schema::SemanticElement;
use crate::text::{
    append_chars, chars_eq, chars_of, contains, decode_chars, decoded, find_char_from,
    first_index_from, is_ascii_digit, is_digit, lemma_first_index_from_props,
    lemma_trim_end_is_prefix, seq_contains, str_eq, string_of, subvec, to_lowercase, trim,
    trim_chars, trim_end, trim_end_chars, unicode_lowercase, utf8_len,
};

verus! {

// ---------------------------------------------------------------------------
// Content keys
// ---------------------------------------------------------------------------

/// Every character is an ASCII digit or a space.
pub open spec fn digits_and_spaces(s: Seq<char>) -> bool {
    forall|k: int| 0 <= k < s.len() ==> is_digit(#[trigger] s[k]) || s[k] == ' '
}

/// Repeatedly removes the first parenthesised group when it holds only digits
/// and spaces (as in `"Reviews (12)"`), trimming the text before it; stops at
/// the first group that holds anything else.
pub open spec fn strip_groups(s: Seq<char>) -> Seq<char>
    decreases s.len(),
{
    match first_index_from(s, '(', 0) {
        None => s,
        Some(start) => match first_index_from(s, ')', start) {
            None => s,
            Some(end) => {
                if digits_and_spaces(trim(s.subrange(start + 1, end))) {
                    proof {
                        lemma_first_index_from_props(s, '(', 0);
                        lemma_first_index_from_props(s, ')', start);
                        lemma_trim_end_is_prefix(s.subrange(0, start));
                    }
                    strip_groups(
                        trim_end(s.subrange(0, start)) + s.subrange(end + 1, s.len() as int),
                    )
                } else {
                    s
                }
            }
        },
    }
}

/// The text with dynamic counts removed and surrounding whitespace trimmed.
pub open spec fn stripped_counts(s: Seq<char>) -> Seq<char> {
    trim(strip_groups(s))
}

/// Byte length of the UTF-8 form of `s`, as `str::len` reports it.
pub open spec fn byte_len(s: Seq<char>) -> usize {
    utf8_len(s) as usize
}

/// The comparison key of an element's content: its decoded text lowercased,
/// and that lowercased text with dynamic counts stripped. Elements without
/// content, or whose decoded content is shorter than two bytes, have none.
pub open spec fn content_key(e: SemanticElement) -> Option<(Seq<char>, Seq<char>)> {
    match e.content {
        Some(c) => {
            let d = decoded(c@);
            if byte_len(d) < 2 {
                None
            } else {
                let lower = unicode_lowercase(d);
                Some((lower, stripped_counts(lower)))
            }
        },
        None => None,
    }
}

/// Containment tier: the shorter text is at least three bytes and at least
/// 60% of the longer one, and one contains the other.
pub open spec fn containment_ratio(a: Seq<char>, b: Seq<char>) -> Option<int> {
    let la = byte_len(a) as int;
    let lb = byte_len(b) as int;
    let shorter = if la <= lb { la } else { lb };
    let longer = if la <= lb { lb } else { la };
    if shorter >= 3 && shorter * 100 / longer >= 60 && (seq_contains(a, b) || seq_contains(b, a)) {
        Some(shorter * 100 / longer)
    } else {
        None
    }
}

/// Scan of the unmatched targets from position `t` on for the best content
/// match of a source key: an exact (case-insensitive) match scores 300 and
/// ends the scan, equal stripped texts of at least three bytes score 200 and
/// end the scan, and a containment match scores 100 plus its ratio and is
/// kept when it beats the best so far.
pub open spec fn scan_content(
    sk: (Seq<char>, Seq<char>),
    tkeys: Seq<Option<(Seq<char>, Seq<char>)>>,
    tm: Seq<bool>,
    t: int,
    best: Option<(int, int)>,
) -> Option<(int, int)>
    decreases tkeys.len() - t,
{
    if t < 0 || t >= tkeys.len() {
        best
    } else if tm[t] {
        scan_content(sk, tkeys, tm, t + 1, best)
    } else {
        match tkeys[t] {
            None => scan_content(sk, tkeys, tm, t + 1, best),
            Some(tk) => {
                if sk.0 == tk.0 {
                    Some((t, 300))
                } else if sk.1 == tk.1 && byte_len(sk.1) >= 3 {
                    Some((t, 200))
                } else {
                    match containment_ratio(sk.0, tk.0) {
                        Some(ratio) => {
                            if best is None || 100 + ratio > best.unwrap().1 {
                                scan_content(sk, tkeys, tm, t + 1, Some((t, 100 + ratio)))
                            } else {
                                scan_content(sk, tkeys, tm, t + 1, best)
                            }
                        },
                        None => scan_content(sk, tkeys, tm, t + 1, best),
                    }
                }
            },
        }
    }
}

// ---------------------------------------------------------------------------
// The matching state and its three passes
// ---------------------------------------------------------------------------

#[derive(Debug, Clone, Copy, PartialEq, Eq)]
pub enum MatchMethod {
    Id,
    Content,
    Proximity,
}

/// A source element paired with a target element, by index.
#[derive(Debug, Clone, Copy, PartialEq, Eq)]
pub struct ElementMatch {
    pub src: usize,
    pub tgt: usize,
    pub method: MatchMethod,
}

/// The matches made so far, in order, and which sources and targets they use.
pub type MatchState = (Seq<ElementMatch>, Seq<bool>, Seq<bool>);

pub open spec fn derefs(v: Seq<&SemanticElement>) -> Seq<SemanticElement> {
    v.map_values(|e: &SemanticElement| *e)
}

pub open spec fn initial_state(n: nat, m: nat) -> MatchState {
    (Seq::empty(), Seq::new(n, |i: int| false), Seq::new(m, |i: int| false))
}

pub open spec fn record(st: MatchState, i: int, t: int, method: MatchMethod) -> MatchState {
    (
        st.0.push(ElementMatch { src: i as usize, tgt: t as usize, method }),
        st.1.update(i, true),
        st.2.update(t, true),
    )
}

/// First unmatched target from `t` on whose non-empty ID equals `id`.
pub open spec fn first_id_match(
    id: Seq<char>,
    tgt: Seq<SemanticElement>,
    tm: Seq<bool>,
    t: int,
) -> Option<int>
    decreases tgt.len() - t,
{
    if t < 0 || t >= tgt.len() {
        None
    } else if !tm[t] && tgt[t].id@.len() > 0 && tgt[t].id@ == id {
        Some(t)
    } else {
        first_id_match(id, tgt, tm, t + 1)
    }
}

pub open spec fn id_step(src: Seq<SemanticElement>, tgt: Seq<SemanticElement>, st: MatchState, i: int) -> MatchState {
    if src[i].id@.len() == 0 || st.1[i] {
        st
    } else {
        match first_id_match(src[i].id@, tgt, st.2, 0) {
            Some(t) => record(st, i, t, MatchMethod::Id),
            None => st,
        }
    }
}

pub open spec fn content_step(
    src: Seq<SemanticElement>,
    tgt: Seq<SemanticElement>,
    st: MatchState,
    i: int,
) -> MatchState {
    if st.1[i] {
        st
    } else {
        match content_key(src[i]) {
            None => st,
            Some(sk) => match scan_content(
                sk,
                tgt.map_values(|e: SemanticElement| content_key(e)),
                st.2,
                0,
                None,
            ) {
                Some(best) => record(st, i, best.0, MatchMethod::Content),
                None => st,
            },
        }
    }
}

/// Manhattan distance between the top-left corners of two elements.
pub open spec fn corner_distance(a: SemanticElement, b: SemanticElement) -> int {
    let dx = a.bounds.x - b.bounds.x;
    let dy = a.bounds.y - b.bounds.y;
    (if dx < 0 { -dx } else { dx }) + (if dy < 0 { -dy } else { dy })
}

/// Nearest unmatched target of the same type within 40, scanning from `t`
/// on; ties keep the earlier target.
pub open spec fn scan_proximity(
    s: SemanticElement,
    tgt: Seq<SemanticElement>,
    tm: Seq<bool>,
    t: int,
    best: Option<(int, int)>,
) -> Option<(int, int)>
    decreases tgt.len() - t,
{
    if t < 0 || t >= tgt.len() {
        best
    } else if tm[t] || s.elem_type@ != tgt[t].elem_type@ {
        scan_proximity(s, tgt, tm, t + 1, best)
    } else {
        let d = corner_distance(s, tgt[t]);
        if d <= 40 && (best is None || d < best.unwrap().1) {
            scan_proximity(s, tgt, tm, t + 1, Some((t, d)))
        } else {
            scan_proximity(s, tgt, tm, t + 1, best)
        }
    }
}

pub open spec fn is_text_or_button(e: SemanticElement) -> bool {
    e.elem_type@ == "text"@ || e.elem_type@ == "button"@
}

pub open spec fn proximity_step(
    src: Seq<SemanticElement>,
    tgt: Seq<SemanticElement>,
    st: MatchState,
    i: int,
) -> MatchState {
    if st.1[i] || is_text_or_button(src[i]) {
        st
    } else {
        match scan_proximity(src[i], tgt, st.2, 0, None) {
            Some(best) => record(st, i, best.0, MatchMethod::Proximity),
            None => st,
        }
    }
}

pub open spec fn step(
    pass: int,
    src: Seq<SemanticElement>,
    tgt: Seq<SemanticElement>,
    st: MatchState,
    i: int,
) -> MatchState {
    if pass == 1 {
        id_step(src, tgt, st, i)
    } else if pass == 2 {
        content_step(src, tgt, st, i)
    } else {
        proximity_step(src, tgt, st, i)
    }
}

/// The state after a pass has visited sources `0..k`, starting from `st`.
pub open spec fn run_pass(
    pass: int,
    src: Seq<SemanticElement>,
    tgt: Seq<SemanticElement>,
    st: MatchState,
    k: int,
) -> MatchState
    decreases k,
{
    if k <= 0 {
        st
    } else {
        step(pass, src, tgt, run_pass(pass, src, tgt, st, k - 1), k - 1)
    }
}

/// The state after all three passes.
pub open spec fn matched_state(src: Seq<SemanticElement>, tgt: Seq<SemanticElement>) -> MatchState {
    let n = src.len() as int;
    let s1 = run_pass(1, src, tgt, initial_state(src.len(), tgt.len()), n);
    let s2 = run_pass(2, src, tgt, s1, n);
    run_pass(3, src, tgt, s2, n)
}

/// Indices `0..k` whose flag is false, in increasing order.
pub open spec fn unflagged(flags: Seq<bool>, k: int) -> Seq<usize>
    decreases k,
{
    if k <= 0 {
        Seq::empty()
    } else if !flags[k - 1] {
        unflagged(flags, k - 1).push((k - 1) as usize)
    } else {
        unflagged(flags, k - 1)
    }
}

/// The outcome of matching two element lists.
pub struct Matching {
    pub matches: Vec<ElementMatch>,
    pub unmatched_src: Vec<usize>,
    pub unmatched_tgt: Vec<usize>,
}

// ---------------------------------------------------------------------------
// Executable matching
// ---------------------------------------------------------------------------

/// Comparison key of one element, with the UTF-8 byte lengths of its parts.
pub struct ContentKey {
    pub lower: Vec<char>,
    pub stripped: Vec<char>,
    pub lower_len: usize,
    pub stripped_len: usize,
}

pub open spec fn key_view(k: ContentKey) -> (Seq<char>, Seq<char>) {
    (k.lower@, k.stripped@)
}

pub open spec fn key_wf(k: ContentKey) -> bool {
    k.lower_len == byte_len(k.lower@) && k.stripped_len == byte_len(k.stripped@)
}

pub open spec fn opt_key_view(k: Option<ContentKey>) -> Option<(Seq<char>, Seq<char>)> {
    match k {
        Some(k) => Some(key_view(k)),
        None => None,
    }
}

/// Whether every character of `v` is an ASCII digit or a space.
pub fn all_digits_or_spaces(v: &Vec<char>) -> (r: bool)
    ensures
        r == digits_and_spaces(v@),
{
    let mut i: usize = 0;
    while i < v.len()
        invariant
            i <= v.len(),
            forall|k: int| 0 <= k < i ==> is_digit(#[trigger] v@[k]) || v@[k] == ' ',
        decreases v.len() - i,
    {
        if !(is_ascii_digit(v[i]) || v[i] == ' ') {
            return false;
        }
        i = i + 1;
    }
    true
}

/// Removes dynamic counts such as `(12)` from a text and trims it.
pub fn strip_dynamic_counts(s: &Vec<char>) -> (r: Vec<char>)
    ensures
        r@ == stripped_counts(s@),
{
    let mut result = subvec(s, 0, s.len());
    assert(result@ =~= s@);
    loop
        invariant
            strip_groups(result@) == strip_groups(s@),
        ensures
            strip_groups(result@) == strip_groups(s@),
            strip_groups(result@) == result@,
        decreases result.len(),
    {
        let open = find_char_from(&result, '(', 0);
        match open {
            None => {
                break;
            },
            Some(start) => {
                proof {
                    lemma_first_index_from_props(result@, '(', 0);
                }
                let close = find_char_from(&result, ')', start);
                match close {
                    None => {
                        break;
                    },
                    Some(end) => {
                        proof {
                            lemma_first_index_from_props(result@, ')', start as int);
                        }
                        let inner = subvec(&result, start + 1, end);
                        let inner_trimmed = trim_chars(&inner);
                        if all_digits_or_spaces(&inner_trimmed) {
                            let head = subvec(&result, 0, start);
                            let mut next = trim_end_chars(&head);
                            let tail = subvec(&result, end + 1, result.len());
                            append_chars(&mut next, &tail);
                            proof {
                                lemma_trim_end_is_prefix(head@);
                            }
                            result = next;
                        } else {
                            break;
                        }
                    },
                }
            },
        }
    }
    trim_chars(&result)
}

/// UTF-8 byte length of a character vector.
pub fn chars_byte_len(v: &Vec<char>) -> (r: usize)
    ensures
        r == byte_len(v@),
{
    let s = string_of(v);
    s.as_str().len()
}

/// The comparison key of an element's content, if it has one.
pub fn content_key_of(e: &SemanticElement) -> (r: Option<ContentKey>)
    ensures
        opt_key_view(r) == content_key(*e),
        r matches Some(k) ==> key_wf(k),
{
    match &e.content {
        None => None,
        Some(c) => {
            let chars = chars_of(c.as_str());
            let d = decode_chars(&chars);
            if chars_byte_len(&d) < 2 {
                None
            } else {
                let ds = string_of(&d);
                let lower_s = to_lowercase(ds.as_str());
                let lower = chars_of(lower_s.as_str());
                let stripped = strip_dynamic_counts(&lower);
                let lower_len = chars_byte_len(&lower);
                let stripped_len = chars_byte_len(&stripped);
                Some(ContentKey { lower, stripped, lower_len, stripped_len })
            }
        },
    }
}

/// Containment ratio of two keys' lowercase texts, when the containment tier
/// applies.
fn containment_ratio_of(a: &ContentKey, b: &ContentKey) -> (r: Option<u32>)
    requires
        key_wf(*a),
        key_wf(*b),
    ensures
        r matches Some(x) ==> containment_ratio(a.lower@, b.lower@) == Some(x as int) && x <= 100,
        r is None ==> containment_ratio(a.lower@, b.lower@) is None,
{
    let la = a.lower_len;
    let lb = b.lower_len;
    let shorter = if la <= lb { la } else { lb };
    let longer = if la <= lb { lb } else { la };
    if shorter < 3 {
        return None;
    }
    let prod: u128 = (shorter as u128) * 100;
    let ratio: u128 = prod / (longer as u128);
    assert(ratio <= 100) by (nonlinear_arith)
        requires
            shorter <= longer,
            longer > 0,
            prod == shorter * 100,
            ratio as int == (prod as int) / (longer as int),
    ;
    if ratio < 60 {
        return None;
    }
    if contains(&a.lower, &b.lower) || contains(&b.lower, &a.lower) {
        Some(ratio as u32)
    } else {
        None
    }
}

pub open spec fn keys_view(keys: Seq<Option<ContentKey>>) -> Seq<Option<(Seq<char>, Seq<char>)>> {
    keys.map_values(|k: Option<ContentKey>| opt_key_view(k))
}

pub open spec fn keys_wf(keys: Seq<Option<ContentKey>>) -> bool {
    forall|t: int| 0 <= t < keys.len() ==> (#[trigger] keys[t] matches Some(k) ==> key_wf(k))
}

/// Best content match for a source key among the unmatched targets.
fn best_content_match(sk: &ContentKey, tkeys: &Vec<Option<ContentKey>>, tm: &Vec<bool>) -> (r: Option<(usize, u32)>)
    requires
        key_wf(*sk),
        keys_wf(tkeys@),
        tm.len() == tkeys.len(),
    ensures
        r matches Some(p) ==> scan_content(key_view(*sk), keys_view(tkeys@), tm@, 0, None) == Some(
            (p.0 as int, p.1 as int),
        ),
        r is None ==> scan_content(key_view(*sk), keys_view(tkeys@), tm@, 0, None) is None,
        r matches Some(p) ==> p.0 < tkeys.len(),
{
    let ghost target = scan_content(key_view(*sk), keys_view(tkeys@), tm@, 0, None);
    let mut best: Option<(usize, u32)> = None;
    let mut t: usize = 0;
    while t < tkeys.len()
        invariant
            t <= tkeys.len(),
            tm.len() == tkeys.len(),
            key_wf(*sk),
            keys_wf(tkeys@),
            target == scan_content(key_view(*sk), keys_view(tkeys@), tm@, 0, None),
            target == scan_content(
                key_view(*sk),
                keys_view(tkeys@),
                tm@,
                t as int,
                match best {
                    Some(p) => Some((p.0 as int, p.1 as int)),
                    None => None,
                },
            ),
            best matches Some(p) ==> p.0 < t,
        decreases tkeys.len() - t,
    {
        let ghost bv = match best {
            Some(p) => Some((p.0 as int, p.1 as int)),
            None => None,
        };
        assert(keys_view(tkeys@)[t as int] == opt_key_view(tkeys@[t as int]));
        if !tm[t] {
            match &tkeys[t] {
                None => {},
                Some(tk) => {
                    assert(key_wf(*tk));
                    if chars_eq(&sk.lower, &tk.lower) {
                        return Some((t, 300));
                    }
                    if chars_eq(&sk.stripped, &tk.stripped) && sk.stripped_len >= 3 {
                        return Some((t, 200));
                    }
                    match containment_ratio_of(sk, tk) {
                        Some(ratio) => {
                            let score = 100 + ratio;
                            let better = match best {
                                None => true,
                                Some(p) => score > p.1,
                            };
                            if better {
                                best = Some((t, score));
                            }
                        },
                        None => {},
                    }
                },
            }
        }
        t = t + 1;
    }
    best
}

/// First unmatched target with the same non-empty ID.
fn find_id_match(id: &String, tgt: &Vec<&SemanticElement>, tm: &Vec<bool>) -> (r: Option<usize>)
    requires
        tm.len() == tgt.len(),
    ensures
        r matches Some(t) ==> first_id_match(id@, derefs(tgt@), tm@, 0) == Some(t as int),
        r is None ==> first_id_match(id@, derefs(tgt@), tm@, 0) is None,
        r matches Some(t) ==> t < tgt.len(),
{
    let ghost T = derefs(tgt@);
    let mut t: usize = 0;
    while t < tgt.len()
        invariant
            t <= tgt.len(),
            tm.len() == tgt.len(),
            T == derefs(tgt@),
            first_id_match(id@, T, tm@, 0) == first_id_match(id@, T, tm@, t as int),
        decreases tgt.len() - t,
    {
        let te = tgt[t];
        assert(T[t as int] == *te);
        if !tm[t] && !te.id.as_str().is_empty() && str_eq(te.id.as_str(), id.as_str()) {
            return Some(t);
        }
        t = t + 1;
    }
    None
}

/// Absolute difference of two `i32` values, without overflow.
pub fn abs_diff_i32(a: i32, b: i32) -> (r: i64)
    ensures
        r == (if a - b < 0 { -(a - b) } else { a - b }),
{
    let d = a as i64 - b as i64;
    if d < 0 {
        -d
    } else {
        d
    }
}

/// Nearest unmatched target of the same type within 40.
fn best_proximity_match(s: &SemanticElement, tgt: &Vec<&SemanticElement>, tm: &Vec<bool>) -> (r: Option<(usize, i64)>)
    requires
        tm.len() == tgt.len(),
    ensures
        r matches Some(p) ==> scan_proximity(*s, derefs(tgt@), tm@, 0, None) == Some(
            (p.0 as int, p.1 as int),
        ),
        r is None ==> scan_proximity(*s, derefs(tgt@), tm@, 0, None) is None,
        r matches Some(p) ==> p.0 < tgt.len(),
{
    let ghost T = derefs(tgt@);
    let ghost target = scan_proximity(*s, T, tm@, 0, None);
    let mut best: Option<(usize, i64)> = None;
    let mut t: usize = 0;
    while t < tgt.len()
        invariant
            t <= tgt.len(),
            tm.len() == tgt.len(),
            T == derefs(tgt@),
            target == scan_proximity(*s, T, tm@, 0, None),
            target == scan_proximity(
                *s,
                T,
                tm@,
                t as int,
                match best {
                    Some(p) => Some((p.0 as int, p.1 as int)),
                    None => None,
                },
            ),
            best matches Some(p) ==> p.0 < t,
        decreases tgt.len() - t,
    {
        let te = tgt[t];
        assert(T[t as int] == *te);
        if !tm[t] && str_eq(s.elem_type.as_str(), te.elem_type.as_str()) {
            let d = abs_diff_i32(s.bounds.x, te.bounds.x) + abs_diff_i32(s.bounds.y, te.bounds.y);
            let better = match best {
                None => true,
                Some(p) => d < p.1,
            };
            if d <= 40 && better {
                best = Some((t, d));
            }
        }
        t = t + 1;
    }
    best
}

fn false_flags(n: usize) -> (r: Vec<bool>)
    ensures
        r@ == Seq::new(n as nat, |i: int| false),
{
    let mut v: Vec<bool> = Vec::new();
    let mut i: usize = 0;
    while i < n
        invariant
            i <= n,
            v@ == Seq::new(i as nat, |k: int| false),
        decreases n - i,
    {
        v.push(false);
        i = i + 1;
        assert(v@ =~= Seq::new(i as nat, |k: int| false));
    }
    v
}

fn unflagged_indices(flags: &Vec<bool>) -> (r: Vec<usize>)
    ensures
        r@ == unflagged(flags@, flags.len() as int),
{
    let mut out: Vec<usize> = Vec::new();
    let mut i: usize = 0;
    while i < flags.len()
        invariant
            i <= flags.len(),
            out@ == unflagged(flags@, i as int),
        decreases flags.len() - i,
    {
        if !flags[i] {
            out.push(i);
        }
        i = i + 1;
    }
    out
}

pub open spec fn state_of(matches: Seq<ElementMatch>, sm: Seq<bool>, tm: Seq<bool>) -> MatchState {
    (matches, sm, tm)
}

fn is_text_or_button_exec(e: &SemanticElement) -> (r: bool)
    ensures
        r == is_text_or_button(*e),
{
    str_eq(e.elem_type.as_str(), "text") || str_eq(e.elem_type.as_str(), "button")
}

/// Matches source elements to target elements in three passes: exact ID,
/// then content text, then type and position proximity. Each element is
/// matched at most once.
pub fn match_elements(src: &Vec<&SemanticElement>, tgt: &Vec<&SemanticElement>) -> (r: Matching)
    ensures
        r.matches@ == matched_state(derefs(src@), derefs(tgt@)).0,
        r.unmatched_src@ == unflagged(matched_state(derefs(src@), derefs(tgt@)).1, src.len() as int),
        r.unmatched_tgt@ == unflagged(matched_state(derefs(src@), derefs(tgt@)).2, tgt.len() as int),
{
    let ghost S = derefs(src@);
    let ghost T = derefs(tgt@);
    let n = src.len();
    let mut matches: Vec<ElementMatch> = Vec::new();
    let mut sm = false_flags(n);
    let mut tm = false_flags(tgt.len());
    assert(state_of(matches@, sm@, tm@) =~= initial_state(S.len(), T.len()));
    let ghost st0 = initial_state(S.len(), T.len());

    // Pass 1: exact ID.
    let mut i: usize = 0;
    while i < n
        invariant
            i <= n,
            n == src.len(),
            S == derefs(src@),
            T == derefs(tgt@),
            sm.len() == n,
            tm.len() == tgt.len(),
            st0 == initial_state(S.len(), T.len()),
            state_of(matches@, sm@, tm@) == run_pass(1, S, T, st0, i as int),
        decreases n - i,
    {
        let se = src[i];
        assert(S[i as int] == *se);
        if !se.id.as_str().is_empty() && !sm[i] {
            match find_id_match(&se.id, tgt, &tm) {
                Some(t) => {
                    matches.push(ElementMatch { src: i, tgt: t, method: MatchMethod::Id });
                    sm.set(i, true);
                    tm.set(t, true);
                },
                None => {},
            }
        }
        i = i + 1;
    }
    let ghost st1 = run_pass(1, S, T, st0, n as int);

    // Pass 2: content text.
    let mut tkeys: Vec<Option<ContentKey>> = Vec::new();
    let mut t: usize = 0;
    while t < tgt.len()
        invariant
            t <= tgt.len(),
            T == derefs(tgt@),
            tkeys.len() == t,
            keys_wf(tkeys@),
            forall|k: int| 0 <= k < t ==> opt_key_view(#[trigger] tkeys@[k]) == content_key(T[k]),
        decreases tgt.len() - t,
    {
        let key = content_key_of(tgt[t]);
        assert(T[t as int] == *tgt[t as int]);
        tkeys.push(key);
        t = t + 1;
    }
    assert(keys_view(tkeys@) =~= T.map_values(|e: SemanticElement| content_key(e)));
    i = 0;
    while i < n
        invariant
            i <= n,
            n == src.len(),
            S == derefs(src@),
            T == derefs(tgt@),
            sm.len() == n,
            tm.len() == tgt.len(),
            tkeys.len() == tgt.len(),
            keys_wf(tkeys@),
            keys_view(tkeys@) == T.map_values(|e: SemanticElement| content_key(e)),
            state_of(matches@, sm@, tm@) == run_pass(2, S, T, st1, i as int),
        decreases n - i,
    {
        let se = src[i];
        assert(S[i as int] == *se);
        if !sm[i] {
            match content_key_of(se) {
                None => {},
                Some(sk) => {
                    match best_content_match(&sk, &tkeys, &tm) {
                        Some(best) => {
                            matches.push(ElementMatch { src: i, tgt: best.0, method: MatchMethod::Content });
                            sm.set(i, true);
                            tm.set(best.0, true);
                        },
                        None => {},
                    }
                },
            }
        }
        i = i + 1;
    }
    let ghost st2 = run_pass(2, S, T, st1, n as int);

    // Pass 3: type and position proximity, for elements that are neither
    // text nor buttons.
    i = 0;
    while i < n
        invariant
            i <= n,
            n == src.len(),
            S == derefs(src@),
            T == derefs(tgt@),
            sm.len() == n,
            tm.len() == tgt.len(),
            state_of(matches@, sm@, tm@) == run_pass(3, S, T, st2, i as int),
        decreases n - i,
    {
        let se = src[i];
        assert(S[i as int] == *se);
        if !sm[i] && !is_text_or_button_exec(se) {
            match best_proximity_match(se, tgt, &tm) {
                Some(best) => {
                    matches.push(ElementMatch { src: i, tgt: best.0, method: MatchMethod::Proximity });
                    sm.set(i, true);
                    tm.set(best.0, true);
                },
                None => {},
            }
        }
        i = i + 1;
    }
    let unmatched_src = unflagged_indices(&sm);
    let unmatched_tgt = unflagged_indices(&tm);
    Matching { matches, unmatched_src, unmatched_tgt }
}

} // verus!
