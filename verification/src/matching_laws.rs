//! What holds of every outcome of the three-pass matching: each element is
//! used at most once, every match meets the rule of the pass that made it,
//! no pair that a pass would have accepted is left unmatched, matches and
//! unmatched elements account for every element, and distinct IDs are
//! matched to each other.

use vstd::prelude::*;

use crate::matching::{
    containment_ratio, content_key, corner_distance, first_id_match, initial_state,
    is_text_or_button, matched_state, record, run_pass, scan_content, scan_proximity, step,
    byte_len, unflagged, ElementMatch, MatchMethod, MatchState,
};
use crate::schema::SemanticElement;
use crate::matching::{digits_and_spaces, strip_groups, stripped_counts};
use crate::text::{
    first_index_from, is_ws, lemma_first_index_from_props, lemma_trim_end_is_prefix, trim, trim_end, trim_start,
};

verus! {

/// The containment, count-stripped or exact content rule holds between two
/// content keys.
pub open spec fn content_tier_holds(sk: (Seq<char>, Seq<char>), tk: (Seq<char>, Seq<char>)) -> bool {
    ||| sk.0 == tk.0
    ||| (sk.1 == tk.1 && byte_len(sk.1) >= 3)
    ||| containment_ratio(sk.0, tk.0) is Some
}

/// A target key, when present, meets a content tier with the source key.
pub open spec fn key_qualifies(sk: (Seq<char>, Seq<char>), k: Option<(Seq<char>, Seq<char>)>) -> bool {
    match k {
        Some(tk) => content_tier_holds(sk, tk),
        None => false,
    }
}

/// Two elements may be paired by the proximity rule.
pub open spec fn proximity_holds(s: SemanticElement, t: SemanticElement) -> bool {
    &&& !is_text_or_button(s)
    &&& s.elem_type@ == t.elem_type@
    &&& corner_distance(s, t) <= 40
}

/// Two elements may be paired by the ID rule.
pub open spec fn id_holds(s: SemanticElement, t: SemanticElement) -> bool {
    s.id@.len() > 0 && s.id@ == t.id@
}

/// Two elements may be paired by the content rule.
pub open spec fn content_holds(s: SemanticElement, t: SemanticElement) -> bool {
    match (content_key(s), content_key(t)) {
        (Some(sk), Some(tk)) => content_tier_holds(sk, tk),
        _ => false,
    }
}

/// The rule of the pass that made a match holds between its two elements.
pub open spec fn justified(src: Seq<SemanticElement>, tgt: Seq<SemanticElement>, m: ElementMatch) -> bool {
    let s = src[m.src as int];
    let t = tgt[m.tgt as int];
    match m.method {
        MatchMethod::Id => id_holds(s, t),
        MatchMethod::Content => content_holds(s, t),
        MatchMethod::Proximity => proximity_holds(s, t),
    }
}

/// A matching state is consistent: flags and matches agree, indices are in
/// range, no element is used twice, and every match is justified.
pub open spec fn consistent(src: Seq<SemanticElement>, tgt: Seq<SemanticElement>, st: MatchState) -> bool {
    &&& st.1.len() == src.len()
    &&& st.2.len() == tgt.len()
    &&& forall|k: int|
        #![trigger st.0[k]]
        0 <= k < st.0.len() ==> {
            &&& st.0[k].src < src.len()
            &&& st.0[k].tgt < tgt.len()
            &&& st.1[st.0[k].src as int]
            &&& st.2[st.0[k].tgt as int]
            &&& justified(src, tgt, st.0[k])
        }
    &&& forall|k: int, l: int|
        #![trigger st.0[k], st.0[l]]
        0 <= k < l < st.0.len() ==> st.0[k].src != st.0[l].src && st.0[k].tgt != st.0[l].tgt
    &&& forall|i: int|
        #![trigger st.1[i]]
        0 <= i < src.len() && st.1[i] ==> exists|k: int|
            0 <= k < st.0.len() && #[trigger] st.0[k].src == i
    &&& forall|t: int|
        #![trigger st.2[t]]
        0 <= t < tgt.len() && st.2[t] ==> exists|k: int|
            0 <= k < st.0.len() && #[trigger] st.0[k].tgt == t
}

/// The flags of `b` include those of `a`.
pub open spec fn grows(a: MatchState, b: MatchState) -> bool {
    &&& a.1.len() == b.1.len()
    &&& a.2.len() == b.2.len()
    &&& forall|i: int| 0 <= i < a.1.len() && #[trigger] a.1[i] ==> b.1[i]
    &&& forall|t: int| 0 <= t < a.2.len() && #[trigger] a.2[t] ==> b.2[t]
}

/// Among sources `0..k`, no unmatched source and unmatched target satisfy
/// `rule`.
pub open spec fn maximal_id(src: Seq<SemanticElement>, tgt: Seq<SemanticElement>, st: MatchState, k: int) -> bool {
    forall|i: int, t: int|
        0 <= i < k && 0 <= t < tgt.len() && !#[trigger] st.1[i] && !#[trigger] st.2[t] ==> !id_holds(
            src[i],
            tgt[t],
        )
}

pub open spec fn maximal_content(src: Seq<SemanticElement>, tgt: Seq<SemanticElement>, st: MatchState, k: int) -> bool {
    forall|i: int, t: int|
        0 <= i < k && 0 <= t < tgt.len() && !#[trigger] st.1[i] && !#[trigger] st.2[t]
            ==> !content_holds(src[i], tgt[t])
}

pub open spec fn maximal_proximity(
    src: Seq<SemanticElement>,
    tgt: Seq<SemanticElement>,
    st: MatchState,
    k: int,
) -> bool {
    forall|i: int, t: int|
        0 <= i < k && 0 <= t < tgt.len() && !#[trigger] st.1[i] && !#[trigger] st.2[t]
            ==> !proximity_holds(src[i], tgt[t])
}

// ---------------------------------------------------------------------------
// Scans
// ---------------------------------------------------------------------------

proof fn lemma_first_id_match(id: Seq<char>, tgt: Seq<SemanticElement>, tm: Seq<bool>, t: int)
    requires
        0 <= t,
        tm.len() == tgt.len(),
    ensures
        first_id_match(id, tgt, tm, t) matches Some(r) ==> t <= r < tgt.len() && !tm[r]
            && tgt[r].id@.len() > 0 && tgt[r].id@ == id,
        first_id_match(id, tgt, tm, t) is None ==> forall|u: int|
            t <= u < tgt.len() && !tm[u] && tgt[u].id@.len() > 0 ==> tgt[u].id@ != id,
    decreases tgt.len() - t,
{
    if t < tgt.len() {
        lemma_first_id_match(id, tgt, tm, t + 1);
    }
}

proof fn lemma_scan_content(
    sk: (Seq<char>, Seq<char>),
    keys: Seq<Option<(Seq<char>, Seq<char>)>>,
    tm: Seq<bool>,
    t: int,
    best: Option<(int, int)>,
)
    requires
        0 <= t,
        tm.len() == keys.len(),
        best matches Some(b) ==> 0 <= b.0 < keys.len() && !tm[b.0] && key_qualifies(sk, keys[b.0]),
    ensures
        scan_content(sk, keys, tm, t, best) matches Some(r) ==> 0 <= r.0 < keys.len() && !tm[r.0]
            && key_qualifies(sk, keys[r.0]),
        scan_content(sk, keys, tm, t, best) is None ==> best is None && forall|u: int|
            t <= u < keys.len() && !tm[u] ==> !key_qualifies(sk, #[trigger] keys[u]),
    decreases keys.len() - t,
{
    if t < keys.len() {
        if !tm[t] {
            match keys[t] {
                Some(tk) => {
                    if sk.0 == tk.0 {
                    } else if sk.1 == tk.1 && byte_len(sk.1) >= 3 {
                    } else {
                        match containment_ratio(sk.0, tk.0) {
                            Some(ratio) => {
                                if best is None || 100 + ratio > best.unwrap().1 {
                                    lemma_scan_content(sk, keys, tm, t + 1, Some((t, 100 + ratio)));
                                } else {
                                    lemma_scan_content(sk, keys, tm, t + 1, best);
                                }
                            },
                            None => {
                                lemma_scan_content(sk, keys, tm, t + 1, best);
                            },
                        }
                    }
                },
                None => {
                    lemma_scan_content(sk, keys, tm, t + 1, best);
                },
            }
        } else {
            lemma_scan_content(sk, keys, tm, t + 1, best);
        }
    }
}

proof fn lemma_scan_proximity(
    s: SemanticElement,
    tgt: Seq<SemanticElement>,
    tm: Seq<bool>,
    t: int,
    best: Option<(int, int)>,
)
    requires
        0 <= t,
        tm.len() == tgt.len(),
        !is_text_or_button(s),
        best matches Some(b) ==> 0 <= b.0 < tgt.len() && !tm[b.0] && proximity_holds(s, tgt[b.0]),
    ensures
        scan_proximity(s, tgt, tm, t, best) matches Some(r) ==> 0 <= r.0 < tgt.len() && !tm[r.0]
            && proximity_holds(s, tgt[r.0]),
        scan_proximity(s, tgt, tm, t, best) is None ==> best is None && forall|u: int|
            t <= u < tgt.len() && !tm[u] ==> !proximity_holds(s, #[trigger] tgt[u]),
    decreases tgt.len() - t,
{
    if t < tgt.len() {
        if tm[t] || s.elem_type@ != tgt[t].elem_type@ {
            lemma_scan_proximity(s, tgt, tm, t + 1, best);
        } else {
            let d = corner_distance(s, tgt[t]);
            if d <= 40 && (best is None || d < best.unwrap().1) {
                lemma_scan_proximity(s, tgt, tm, t + 1, Some((t, d)));
            } else {
                lemma_scan_proximity(s, tgt, tm, t + 1, best);
            }
        }
    }
}

// ---------------------------------------------------------------------------
// Steps and passes
// ---------------------------------------------------------------------------

proof fn lemma_record(
    src: Seq<SemanticElement>,
    tgt: Seq<SemanticElement>,
    st: MatchState,
    i: int,
    t: int,
    method: MatchMethod,
)
    requires
        consistent(src, tgt, st),
        src.len() <= usize::MAX,
        tgt.len() <= usize::MAX,
        0 <= i < src.len(),
        0 <= t < tgt.len(),
        !st.1[i],
        !st.2[t],
        justified(src, tgt, ElementMatch { src: i as usize, tgt: t as usize, method }),
    ensures
        consistent(src, tgt, record(st, i, t, method)),
        grows(st, record(st, i, t, method)),
{
    let st2 = record(st, i, t, method);
    let n = st.0.len() as int;
    assert forall|k: int| #![trigger st2.0[k]] 0 <= k < st2.0.len() implies {
        &&& st2.0[k].src < src.len()
        &&& st2.0[k].tgt < tgt.len()
        &&& st2.1[st2.0[k].src as int]
        &&& st2.2[st2.0[k].tgt as int]
        &&& justified(src, tgt, st2.0[k])
    } by {
        if k < n {
            assert(st2.0[k] == st.0[k]);
        }
    }
    assert forall|k: int, l: int|
        #![trigger st2.0[k], st2.0[l]]
        0 <= k < l < st2.0.len() implies st2.0[k].src != st2.0[l].src && st2.0[k].tgt
        != st2.0[l].tgt by {
        if l < n {
            assert(st2.0[k] == st.0[k]);
            assert(st2.0[l] == st.0[l]);
        } else {
            assert(st2.0[k] == st.0[k]);
            assert(st.1[st.0[k].src as int]);
            assert(st.2[st.0[k].tgt as int]);
        }
    }
    assert forall|j: int| #![trigger st2.1[j]] 0 <= j < src.len() && st2.1[j] implies exists|k: int|
        0 <= k < st2.0.len() && #[trigger] st2.0[k].src == j by {
        if j == i {
            assert(st2.0[n].src == j);
        } else {
            assert(st.1[j]);
            let k = choose|k: int| 0 <= k < st.0.len() && #[trigger] st.0[k].src == j;
            assert(st2.0[k] == st.0[k]);
        }
    }
    assert forall|u: int| #![trigger st2.2[u]] 0 <= u < tgt.len() && st2.2[u] implies exists|k: int|
        0 <= k < st2.0.len() && #[trigger] st2.0[k].tgt == u by {
        if u == t {
            assert(st2.0[n].tgt == u);
        } else {
            assert(st.2[u]);
            let k = choose|k: int| 0 <= k < st.0.len() && #[trigger] st.0[k].tgt == u;
            assert(st2.0[k] == st.0[k]);
        }
    }
}

proof fn lemma_grows_trans(a: MatchState, b: MatchState, c: MatchState)
    requires
        grows(a, b),
        grows(b, c),
    ensures
        grows(a, c),
{
    assert forall|i: int| 0 <= i < a.1.len() && #[trigger] a.1[i] implies c.1[i] by {
        assert(b.1[i]);
    }
    assert forall|t: int| 0 <= t < a.2.len() && #[trigger] a.2[t] implies c.2[t] by {
        assert(b.2[t]);
    }
}

proof fn lemma_grows_refl(a: MatchState)
    ensures
        grows(a, a),
{
}

pub open spec fn step_leaves_no_partner(
    pass: int,
    src: Seq<SemanticElement>,
    tgt: Seq<SemanticElement>,
    st2: MatchState,
    i: int,
) -> bool {
    forall|t: int|
        0 <= t < tgt.len() && !st2.1[i] && !#[trigger] st2.2[t] ==> {
            &&& (pass == 1 ==> !id_holds(src[i], tgt[t]))
            &&& (pass == 2 ==> !content_holds(src[i], tgt[t]))
            &&& (pass == 3 ==> !proximity_holds(src[i], tgt[t]))
        }
}

proof fn lemma_id_step(src: Seq<SemanticElement>, tgt: Seq<SemanticElement>, st: MatchState, i: int)
    requires
        consistent(src, tgt, st),
        src.len() <= usize::MAX,
        tgt.len() <= usize::MAX,
        0 <= i < src.len(),
    ensures
        consistent(src, tgt, step(1, src, tgt, st, i)),
        grows(st, step(1, src, tgt, st, i)),
        step_leaves_no_partner(1, src, tgt, step(1, src, tgt, st, i), i),
{
    if src[i].id@.len() == 0 || st.1[i] {
    } else {
        lemma_first_id_match(src[i].id@, tgt, st.2, 0);
        match first_id_match(src[i].id@, tgt, st.2, 0) {
            Some(t) => {
                lemma_record(src, tgt, st, i, t, MatchMethod::Id);
            },
            None => {},
        }
    }
}

proof fn lemma_content_step(src: Seq<SemanticElement>, tgt: Seq<SemanticElement>, st: MatchState, i: int)
    requires
        consistent(src, tgt, st),
        src.len() <= usize::MAX,
        tgt.len() <= usize::MAX,
        0 <= i < src.len(),
    ensures
        consistent(src, tgt, step(2, src, tgt, st, i)),
        grows(st, step(2, src, tgt, st, i)),
        step_leaves_no_partner(2, src, tgt, step(2, src, tgt, st, i), i),
{
    let st2 = step(2, src, tgt, st, i);
    if !st.1[i] {
        match content_key(src[i]) {
            None => {},
            Some(sk) => {
                let keys = tgt.map_values(|e: SemanticElement| content_key(e));
                lemma_scan_content(sk, keys, st.2, 0, None);
                match scan_content(sk, keys, st.2, 0, None) {
                    Some(best) => {
                        assert(keys[best.0] == content_key(tgt[best.0]));
                        lemma_record(src, tgt, st, i, best.0, MatchMethod::Content);
                    },
                    None => {
                        assert forall|t: int|
                            0 <= t < tgt.len() && !st2.1[i] && !#[trigger] st2.2[t] implies !content_holds(
                            src[i],
                            tgt[t],
                        ) by {
                            assert(keys[t] == content_key(tgt[t]));
                        }
                    },
                }
            },
        }
    }
}

proof fn lemma_proximity_step(src: Seq<SemanticElement>, tgt: Seq<SemanticElement>, st: MatchState, i: int)
    requires
        consistent(src, tgt, st),
        src.len() <= usize::MAX,
        tgt.len() <= usize::MAX,
        0 <= i < src.len(),
    ensures
        consistent(src, tgt, step(3, src, tgt, st, i)),
        grows(st, step(3, src, tgt, st, i)),
        step_leaves_no_partner(3, src, tgt, step(3, src, tgt, st, i), i),
{
    if st.1[i] || is_text_or_button(src[i]) {
    } else {
        lemma_scan_proximity(src[i], tgt, st.2, 0, None);
        match scan_proximity(src[i], tgt, st.2, 0, None) {
            Some(best) => {
                lemma_record(src, tgt, st, i, best.0, MatchMethod::Proximity);
            },
            None => {},
        }
    }
}

proof fn lemma_step(
    pass: int,
    src: Seq<SemanticElement>,
    tgt: Seq<SemanticElement>,
    st: MatchState,
    i: int,
)
    requires
        1 <= pass <= 3,
        consistent(src, tgt, st),
        src.len() <= usize::MAX,
        tgt.len() <= usize::MAX,
        0 <= i < src.len(),
    ensures
        consistent(src, tgt, step(pass, src, tgt, st, i)),
        grows(st, step(pass, src, tgt, st, i)),
        step_leaves_no_partner(pass, src, tgt, step(pass, src, tgt, st, i), i),
{
    if pass == 1 {
        lemma_id_step(src, tgt, st, i);
    } else if pass == 2 {
        lemma_content_step(src, tgt, st, i);
    } else {
        lemma_proximity_step(src, tgt, st, i);
    }
}

/// Maximality for the rule of a pass is kept by any change that only adds
/// flags.
pub open spec fn maximal(pass: int, src: Seq<SemanticElement>, tgt: Seq<SemanticElement>, st: MatchState, k: int) -> bool {
    if pass == 1 {
        maximal_id(src, tgt, st, k)
    } else if pass == 2 {
        maximal_content(src, tgt, st, k)
    } else {
        maximal_proximity(src, tgt, st, k)
    }
}

proof fn lemma_maximal_grows(
    pass: int,
    src: Seq<SemanticElement>,
    tgt: Seq<SemanticElement>,
    a: MatchState,
    b: MatchState,
    k: int,
)
    requires
        maximal(pass, src, tgt, a, k),
        grows(a, b),
        a.1.len() == src.len(),
        a.2.len() == tgt.len(),
        k <= src.len(),
    ensures
        maximal(pass, src, tgt, b, k),
{
    assert forall|i: int, t: int|
        0 <= i < k && 0 <= t < tgt.len() && !#[trigger] b.1[i] && !#[trigger] b.2[t] implies !a.1[i]
        && !a.2[t] by {
        if a.1[i] {
            assert(b.1[i]);
        }
        if a.2[t] {
            assert(b.2[t]);
        }
    }
}

proof fn lemma_run_pass(
    pass: int,
    src: Seq<SemanticElement>,
    tgt: Seq<SemanticElement>,
    st: MatchState,
    k: int,
)
    requires
        1 <= pass <= 3,
        consistent(src, tgt, st),
        src.len() <= usize::MAX,
        tgt.len() <= usize::MAX,
        0 <= k <= src.len(),
    ensures
        consistent(src, tgt, run_pass(pass, src, tgt, st, k)),
        grows(st, run_pass(pass, src, tgt, st, k)),
        maximal(pass, src, tgt, run_pass(pass, src, tgt, st, k), k),
    decreases k,
{
    if k == 0 {
        lemma_grows_refl(st);
    } else {
        lemma_run_pass(pass, src, tgt, st, k - 1);
        let prev = run_pass(pass, src, tgt, st, k - 1);
        let next = run_pass(pass, src, tgt, st, k);
        assert(next == step(pass, src, tgt, prev, k - 1));
        lemma_step(pass, src, tgt, prev, k - 1);
        lemma_grows_trans(st, prev, next);
        lemma_maximal_grows(pass, src, tgt, prev, next, k - 1);
        assert forall|i: int, t: int|
            0 <= i < k && 0 <= t < tgt.len() && !#[trigger] next.1[i] && !#[trigger] next.2[t] implies {
            &&& (pass == 1 ==> !id_holds(src[i], tgt[t]))
            &&& (pass == 2 ==> !content_holds(src[i], tgt[t]))
            &&& (pass == 3 ==> !proximity_holds(src[i], tgt[t]))
        } by {
            if i < k - 1 {
                assert(maximal(pass, src, tgt, next, k - 1));
            } else {
                assert(step_leaves_no_partner(pass, src, tgt, next, k - 1));
            }
        }
    }
}

proof fn lemma_initial(src: Seq<SemanticElement>, tgt: Seq<SemanticElement>)
    ensures
        consistent(src, tgt, initial_state(src.len(), tgt.len())),
{
}

/// Every outcome of the matching is consistent: matched indices are in
/// range, no source and no target is used by two matches, a flagged element
/// is one that some match uses, and each match satisfies the rule of the
/// pass that made it (equal non-empty IDs; equal, count-stripped-equal or
/// contained content; same non-text, non-button type within 40).
pub proof fn law_matching_consistent(src: Seq<SemanticElement>, tgt: Seq<SemanticElement>)
    requires
        src.len() <= usize::MAX,
        tgt.len() <= usize::MAX,
    ensures
        consistent(src, tgt, matched_state(src, tgt)),
{
    lemma_matching(src, tgt);
}

/// No pair of a source and a target left unmatched satisfies any of the
/// three rules: equal non-empty IDs, a content tier, or proximity.
pub proof fn law_matching_maximal(src: Seq<SemanticElement>, tgt: Seq<SemanticElement>)
    requires
        src.len() <= usize::MAX,
        tgt.len() <= usize::MAX,
    ensures
        ({
            let st = matched_state(src, tgt);
            forall|i: int, t: int|
                0 <= i < src.len() && 0 <= t < tgt.len() && !#[trigger] st.1[i] && !#[trigger] st.2[t] ==> {
                    &&& !id_holds(src[i], tgt[t])
                    &&& !content_holds(src[i], tgt[t])
                    &&& !proximity_holds(src[i], tgt[t])
                }
        }),
{
    lemma_matching(src, tgt);
}

proof fn lemma_matching(src: Seq<SemanticElement>, tgt: Seq<SemanticElement>)
    requires
        src.len() <= usize::MAX,
        tgt.len() <= usize::MAX,
    ensures
        consistent(src, tgt, matched_state(src, tgt)),
        ({
            let st = matched_state(src, tgt);
            forall|i: int, t: int|
                0 <= i < src.len() && 0 <= t < tgt.len() && !#[trigger] st.1[i] && !#[trigger] st.2[t] ==> {
                    &&& !id_holds(src[i], tgt[t])
                    &&& !content_holds(src[i], tgt[t])
                    &&& !proximity_holds(src[i], tgt[t])
                }
        }),
{
    let n = src.len() as int;
    let s0 = initial_state(src.len(), tgt.len());
    lemma_initial(src, tgt);
    lemma_run_pass(1, src, tgt, s0, n);
    let s1 = run_pass(1, src, tgt, s0, n);
    lemma_run_pass(2, src, tgt, s1, n);
    let s2 = run_pass(2, src, tgt, s1, n);
    lemma_run_pass(3, src, tgt, s2, n);
    let s3 = run_pass(3, src, tgt, s2, n);
    assert(s3 == matched_state(src, tgt));
    lemma_maximal_grows(1, src, tgt, s1, s2, n);
    lemma_maximal_grows(1, src, tgt, s2, s3, n);
    lemma_maximal_grows(2, src, tgt, s2, s3, n);
    assert(maximal(1, src, tgt, s3, n));
    assert(maximal(2, src, tgt, s3, n));
    assert(maximal(3, src, tgt, s3, n));
}


/// A pass only appends matches: the matches already made stay, in place.
proof fn lemma_run_pass_extends(
    pass: int,
    src: Seq<SemanticElement>,
    tgt: Seq<SemanticElement>,
    st: MatchState,
    k: int,
)
    ensures
        st.0.len() <= run_pass(pass, src, tgt, st, k).0.len(),
        forall|j: int| 0 <= j < st.0.len() ==> #[trigger] run_pass(pass, src, tgt, st, k).0[j] == st.0[j],
    decreases k,
{
    if k > 0 {
        lemma_run_pass_extends(pass, src, tgt, st, k - 1);
    }
}

/// The ID pass, started from no matches, makes only ID matches.
proof fn lemma_id_pass_methods(src: Seq<SemanticElement>, tgt: Seq<SemanticElement>, k: int)
    ensures
        ({
            let st = run_pass(1, src, tgt, initial_state(src.len(), tgt.len()), k);
            forall|j: int| 0 <= j < st.0.len() ==> (#[trigger] st.0[j]).method == MatchMethod::Id
        }),
    decreases k,
{
    if k > 0 {
        lemma_id_pass_methods(src, tgt, k - 1);
    }
}

/// Every element's ID is non-empty and no two elements share one.
pub open spec fn ids_distinct(es: Seq<SemanticElement>) -> bool {
    &&& forall|i: int| 0 <= i < es.len() ==> (#[trigger] es[i]).id@.len() > 0
    &&& forall|i: int, j: int| 0 <= i < j < es.len() ==> (#[trigger] es[i]).id@ != (#[trigger] es[j]).id@
}

/// When the IDs on each side are non-empty and pairwise distinct, every
/// source and target with equal IDs are matched to each other by the ID
/// rule, and a match joins two elements with equal IDs exactly when the ID
/// rule made it.
pub proof fn law_distinct_ids_match_exactly(src: Seq<SemanticElement>, tgt: Seq<SemanticElement>)
    requires
        src.len() <= usize::MAX,
        tgt.len() <= usize::MAX,
        ids_distinct(src),
        ids_distinct(tgt),
    ensures
        ({
            let st = matched_state(src, tgt);
            &&& forall|i: int, t: int|
                0 <= i < src.len() && 0 <= t < tgt.len() && (#[trigger] src[i]).id@ == (#[trigger] tgt[t]).id@
                    ==> exists|k: int|
                    0 <= k < st.0.len() && (#[trigger] st.0[k]).src == i && st.0[k].tgt == t && st.0[k].method
                        == MatchMethod::Id
            &&& forall|k: int|
                0 <= k < st.0.len() ==> (src[(#[trigger] st.0[k]).src as int].id@ == tgt[st.0[k].tgt as int].id@
                    <==> st.0[k].method == MatchMethod::Id)
        }),
{
    let n = src.len() as int;
    let s0 = initial_state(src.len(), tgt.len());
    lemma_initial(src, tgt);
    lemma_run_pass(1, src, tgt, s0, n);
    let s1 = run_pass(1, src, tgt, s0, n);
    let s2 = run_pass(2, src, tgt, s1, n);
    let st = matched_state(src, tgt);
    lemma_id_pass_methods(src, tgt, n);
    lemma_run_pass_extends(2, src, tgt, s1, n);
    lemma_run_pass_extends(3, src, tgt, s2, n);
    lemma_matching(src, tgt);
    assert(st == run_pass(3, src, tgt, s2, n));
    assert forall|i: int, t: int|
        0 <= i < src.len() && 0 <= t < tgt.len() && (#[trigger] src[i]).id@ == (#[trigger] tgt[t]).id@ implies exists|
        k: int|
        0 <= k < st.0.len() && (#[trigger] st.0[k]).src == i && st.0[k].tgt == t && st.0[k].method
            == MatchMethod::Id by {
        assert(src[i].id@.len() > 0);
        assert(maximal(1, src, tgt, s1, n));
        assert(id_holds(src[i], tgt[t]));
        if s1.1[i] {
            let k = choose|k: int| 0 <= k < s1.0.len() && #[trigger] s1.0[k].src == i;
            assert(s1.0[k].method == MatchMethod::Id);
            assert(justified(src, tgt, s1.0[k]));
            let u = s1.0[k].tgt as int;
            if u != t {
                if u < t {
                    assert(tgt[u].id@ != tgt[t].id@);
                } else {
                    assert(tgt[t].id@ != tgt[u].id@);
                }
            }
            assert(st.0[k] == s2.0[k]);
            assert(s2.0[k] == s1.0[k]);
        } else {
            assert(s1.2[t]);
            let k = choose|k: int| 0 <= k < s1.0.len() && #[trigger] s1.0[k].tgt == t;
            assert(s1.0[k].method == MatchMethod::Id);
            assert(justified(src, tgt, s1.0[k]));
            let u = s1.0[k].src as int;
            if u != i {
                if u < i {
                    assert(src[u].id@ != src[i].id@);
                } else {
                    assert(src[i].id@ != src[u].id@);
                }
            }
            assert(st.0[k] == s2.0[k]);
            assert(s2.0[k] == s1.0[k]);
        }
    }
    assert forall|k: int| 0 <= k < st.0.len() implies (src[(#[trigger] st.0[k]).src as int].id@
        == tgt[st.0[k].tgt as int].id@ <==> st.0[k].method == MatchMethod::Id) by {
        let i = st.0[k].src as int;
        let t = st.0[k].tgt as int;
        assert(justified(src, tgt, st.0[k]));
        if src[i].id@ == tgt[t].id@ {
            let k2 = choose|k2: int|
                0 <= k2 < st.0.len() && (#[trigger] st.0[k2]).src == i && st.0[k2].tgt == t && st.0[k2].method
                    == MatchMethod::Id;
            if k2 != k {
                if k2 < k {
                    assert(st.0[k2].src != st.0[k].src);
                } else {
                    assert(st.0[k].src != st.0[k2].src);
                }
            }
        }
    }
}

/// The indices below `k` whose flag is set.
pub open spec fn flagged_set(flags: Seq<bool>, k: int) -> Set<int> {
    Set::new(|i: int| 0 <= i < k && flags[i])
}

proof fn lemma_unflagged_count(flags: Seq<bool>, k: int)
    requires
        0 <= k <= flags.len(),
    ensures
        flagged_set(flags, k).finite(),
        unflagged(flags, k).len() + flagged_set(flags, k).len() == k,
    decreases k,
{
    if k == 0 {
        assert(flagged_set(flags, k) =~= Set::<int>::empty());
    } else {
        lemma_unflagged_count(flags, k - 1);
        if flags[k - 1] {
            assert(flagged_set(flags, k) =~= flagged_set(flags, k - 1).insert(k - 1));
            assert(!flagged_set(flags, k - 1).contains(k - 1));
        } else {
            assert(flagged_set(flags, k) =~= flagged_set(flags, k - 1));
        }
    }
}

/// Every source and every target is either in exactly one match or listed
/// as unmatched: the matches and the unmatched sources together number the
/// sources, and likewise for the targets.
pub proof fn law_matching_counts(src: Seq<SemanticElement>, tgt: Seq<SemanticElement>)
    requires
        src.len() <= usize::MAX,
        tgt.len() <= usize::MAX,
    ensures
        ({
            let st = matched_state(src, tgt);
            &&& st.0.len() + unflagged(st.1, src.len() as int).len() == src.len()
            &&& st.0.len() + unflagged(st.2, tgt.len() as int).len() == tgt.len()
        }),
{
    lemma_matching(src, tgt);
    let st = matched_state(src, tgt);
    let srcs = Seq::new(st.0.len(), |k: int| st.0[k].src as int);
    let tgts = Seq::new(st.0.len(), |k: int| st.0[k].tgt as int);
    assert(srcs.no_duplicates()) by {
        assert forall|i: int, j: int| 0 <= i < srcs.len() && 0 <= j < srcs.len() && i != j implies srcs[i]
            != srcs[j] by {
            if i < j {
                assert(st.0[i].src != st.0[j].src);
            } else {
                assert(st.0[j].src != st.0[i].src);
            }
        }
    }
    assert(tgts.no_duplicates()) by {
        assert forall|i: int, j: int| 0 <= i < tgts.len() && 0 <= j < tgts.len() && i != j implies tgts[i]
            != tgts[j] by {
            if i < j {
                assert(st.0[i].tgt != st.0[j].tgt);
            } else {
                assert(st.0[j].tgt != st.0[i].tgt);
            }
        }
    }
    assert(srcs.to_set() =~= flagged_set(st.1, src.len() as int)) by {
        assert forall|x: int| srcs.to_set().contains(x) implies flagged_set(st.1, src.len() as int).contains(x) by {
            let k = choose|k: int| 0 <= k < srcs.len() && srcs[k] == x;
            assert(st.0[k].src == srcs[k]);
        }
        assert forall|x: int| flagged_set(st.1, src.len() as int).contains(x) implies srcs.to_set().contains(x) by {
            assert(st.1[x]);
            let k = choose|k: int| 0 <= k < st.0.len() && #[trigger] st.0[k].src == x;
            assert(srcs[k] == x);
        }
    }
    assert(tgts.to_set() =~= flagged_set(st.2, tgt.len() as int)) by {
        assert forall|x: int| tgts.to_set().contains(x) implies flagged_set(st.2, tgt.len() as int).contains(x) by {
            let k = choose|k: int| 0 <= k < tgts.len() && tgts[k] == x;
            assert(st.0[k].tgt == tgts[k]);
        }
        assert forall|x: int| flagged_set(st.2, tgt.len() as int).contains(x) implies tgts.to_set().contains(x) by {
            assert(st.2[x]);
            let k = choose|k: int| 0 <= k < st.0.len() && #[trigger] st.0[k].tgt == x;
            assert(tgts[k] == x);
        }
    }
    srcs.unique_seq_to_set();
    tgts.unique_seq_to_set();
    lemma_unflagged_count(st.1, src.len() as int);
    lemma_unflagged_count(st.2, tgt.len() as int);
}

proof fn lemma_unflagged_props(flags: Seq<bool>, k: int)
    requires
        0 <= k <= flags.len(),
        k <= usize::MAX + 1,
    ensures
        forall|j: int| 0 <= j < unflagged(flags, k).len() ==> (#[trigger] unflagged(flags, k)[j]) < k && !flags[
            unflagged(flags, k)[j] as int],
        forall|a: int, b: int|
            0 <= a < b < unflagged(flags, k).len() ==> (#[trigger] unflagged(flags, k)[a]) < (#[trigger] unflagged(
                flags,
                k,
            )[b]),
        forall|i: int| 0 <= i < k && !flags[i] ==> #[trigger] unflagged(flags, k).contains(i as usize),
    decreases k,
{
    if k > 0 {
        lemma_unflagged_props(flags, k - 1);
        let p = unflagged(flags, k - 1);
        let u = unflagged(flags, k);
        if !flags[k - 1] {
            assert(u == p.push((k - 1) as usize));
            assert forall|i: int| 0 <= i < k && !flags[i] implies #[trigger] u.contains(i as usize) by {
                if i == k - 1 {
                    assert(u[u.len() - 1] == (k - 1) as usize);
                } else {
                    assert(p.contains(i as usize));
                    let w = choose|w: int| 0 <= w < p.len() && p[w] == i as usize;
                    assert(u[w] == p[w]);
                }
            }
            assert forall|a: int, b: int| 0 <= a < b < u.len() implies (#[trigger] u[a]) < (#[trigger] u[b]) by {
                if b < p.len() {
                    assert(u[a] == p[a]);
                    assert(u[b] == p[b]);
                } else {
                    assert(u[a] == p[a]);
                }
            }
            assert forall|j: int| 0 <= j < u.len() implies (#[trigger] u[j]) < k && !flags[u[j] as int] by {
                if j < p.len() {
                    assert(u[j] == p[j]);
                }
            }
        }
    }
}

/// Every source index is either the source of exactly one match or listed
/// once among the unmatched sources, never both; the unmatched sources are
/// listed in increasing order. Likewise for the targets.
pub proof fn law_matching_partition(src: Seq<SemanticElement>, tgt: Seq<SemanticElement>)
    requires
        src.len() <= usize::MAX,
        tgt.len() <= usize::MAX,
    ensures
        ({
            let st = matched_state(src, tgt);
            let us = unflagged(st.1, src.len() as int);
            let ut = unflagged(st.2, tgt.len() as int);
            &&& forall|i: usize|
                i < src.len() ==> ((exists|k: int| 0 <= k < st.0.len() && #[trigger] st.0[k].src == i)
                    <==> !#[trigger] us.contains(i))
            &&& forall|t: usize|
                t < tgt.len() ==> ((exists|k: int| 0 <= k < st.0.len() && #[trigger] st.0[k].tgt == t)
                    <==> !#[trigger] ut.contains(t))
            &&& forall|k: int, l: int|
                0 <= k < l < st.0.len() ==> (#[trigger] st.0[k]).src != (#[trigger] st.0[l]).src && st.0[k].tgt
                    != st.0[l].tgt
            &&& forall|a: int, b: int| 0 <= a < b < us.len() ==> (#[trigger] us[a]) < (#[trigger] us[b])
            &&& forall|a: int, b: int| 0 <= a < b < ut.len() ==> (#[trigger] ut[a]) < (#[trigger] ut[b])
            &&& forall|j: int| 0 <= j < us.len() ==> (#[trigger] us[j]) < src.len()
            &&& forall|j: int| 0 <= j < ut.len() ==> (#[trigger] ut[j]) < tgt.len()
        }),
{
    lemma_matching(src, tgt);
    let st = matched_state(src, tgt);
    let n = src.len() as int;
    let m = tgt.len() as int;
    lemma_unflagged_props(st.1, n);
    lemma_unflagged_props(st.2, m);
    let us = unflagged(st.1, n);
    let ut = unflagged(st.2, m);
    assert forall|i: usize| i < n implies ((exists|k: int| 0 <= k < st.0.len() && #[trigger] st.0[k].src == i)
        <==> !#[trigger] us.contains(i)) by {
        if us.contains(i) {
            let w = choose|w: int| 0 <= w < us.len() && us[w] == i;
            assert(!st.1[us[w] as int]);
            if exists|k: int| 0 <= k < st.0.len() && #[trigger] st.0[k].src == i {
                let k = choose|k: int| 0 <= k < st.0.len() && #[trigger] st.0[k].src == i;
                assert(st.1[st.0[k].src as int]);
            }
        } else {
            assert(st.1[i as int]) by {
                if !st.1[i as int] {
                    assert(us.contains((i as int) as usize));
                }
            }
        }
    }
    assert forall|t: usize| t < m implies ((exists|k: int| 0 <= k < st.0.len() && #[trigger] st.0[k].tgt == t)
        <==> !#[trigger] ut.contains(t)) by {
        if ut.contains(t) {
            let w = choose|w: int| 0 <= w < ut.len() && ut[w] == t;
            assert(!st.2[ut[w] as int]);
            if exists|k: int| 0 <= k < st.0.len() && #[trigger] st.0[k].tgt == t {
                let k = choose|k: int| 0 <= k < st.0.len() && #[trigger] st.0[k].tgt == t;
                assert(st.2[st.0[k].tgt as int]);
            }
        } else {
            assert(st.2[t as int]) by {
                if !st.2[t as int] {
                    assert(ut.contains((t as int) as usize));
                }
            }
        }
    }
}

/// Every match the proximity pass makes joins a source and a target of the
/// same type, neither text nor button, whose top-left corners are at most
/// 40 apart when the horizontal and the vertical offsets are added.
pub proof fn law_proximity_matches_are_close(src: Seq<SemanticElement>, tgt: Seq<SemanticElement>)
    requires
        src.len() <= usize::MAX,
        tgt.len() <= usize::MAX,
    ensures
        ({
            let st = matched_state(src, tgt);
            forall|k: int|
                0 <= k < st.0.len() && (#[trigger] st.0[k]).method == MatchMethod::Proximity ==> {
                    let s = src[st.0[k].src as int];
                    let t = tgt[st.0[k].tgt as int];
                    let dx = s.bounds.x - t.bounds.x;
                    let dy = s.bounds.y - t.bounds.y;
                    &&& (if dx < 0 { -dx } else { dx }) + (if dy < 0 { -dy } else { dy }) <= 40
                    &&& s.elem_type@ == t.elem_type@
                    &&& s.elem_type@ != "text"@
                    &&& s.elem_type@ != "button"@
                }
        }),
{
    lemma_matching(src, tgt);
    let st = matched_state(src, tgt);
    assert forall|k: int| 0 <= k < st.0.len() && (#[trigger] st.0[k]).method == MatchMethod::Proximity implies {
        let s = src[st.0[k].src as int];
        let t = tgt[st.0[k].tgt as int];
        let dx = s.bounds.x - t.bounds.x;
        let dy = s.bounds.y - t.bounds.y;
        &&& (if dx < 0 { -dx } else { dx }) + (if dy < 0 { -dy } else { dy }) <= 40
        &&& s.elem_type@ == t.elem_type@
        &&& s.elem_type@ != "text"@
        &&& s.elem_type@ != "button"@
    } by {
        assert(justified(src, tgt, st.0[k]));
    }
}

/// No source and target left unmatched have the same type (neither text
/// nor button) with top-left corners at most 40 apart.
pub proof fn law_close_pairs_are_matched(src: Seq<SemanticElement>, tgt: Seq<SemanticElement>)
    requires
        src.len() <= usize::MAX,
        tgt.len() <= usize::MAX,
    ensures
        ({
            let st = matched_state(src, tgt);
            forall|i: int, t: int|
                0 <= i < src.len() && 0 <= t < tgt.len() && !#[trigger] st.1[i] && !#[trigger] st.2[t] ==> {
                    let dx = src[i].bounds.x - tgt[t].bounds.x;
                    let dy = src[i].bounds.y - tgt[t].bounds.y;
                    !(src[i].elem_type@ == tgt[t].elem_type@ && src[i].elem_type@ != "text"@ && src[i].elem_type@
                        != "button"@ && (if dx < 0 { -dx } else { dx }) + (if dy < 0 { -dy } else { dy }) <= 40)
                }
        }),
{
    lemma_matching(src, tgt);
}

/// An element is compared by content exactly when it has content whose
/// entity-decoded text is at least two UTF-8 bytes long; it is then compared
/// by that text lowercased, and by the lowercased text with its counts
/// stripped.
pub proof fn law_content_keys(e: SemanticElement)
    ensures
        (crate::matching::content_key(e) is Some) <==> (e.content is Some && byte_len(
            crate::text::decoded(e.content->0@),
        ) >= 2),
        crate::matching::content_key(e) matches Some(k) ==> k.0 == crate::text::unicode_lowercase(
            crate::text::decoded(e.content->0@),
        ) && k.1 == stripped_counts(k.0),
{
}

// ---------------------------------------------------------------------------
// Count stripping
// ---------------------------------------------------------------------------

/// The first parenthesised group of `s`, if any, is not a count: stripping
/// has nothing left to remove.
pub open spec fn no_count_group(s: Seq<char>) -> bool {
    match first_index_from(s, '(', 0) {
        None => true,
        Some(start) => match first_index_from(s, ')', start) {
            None => true,
            Some(end) => !digits_and_spaces(trim(s.subrange(start + 1, end))),
        },
    }
}

proof fn lemma_first_index_unique(s: Seq<char>, c: char, from: int, k: int)
    requires
        0 <= from <= k < s.len(),
        s[k] == c,
        forall|m: int| from <= m < k ==> s[m] != c,
    ensures
        first_index_from(s, c, from) == Some(k),
    decreases k - from,
{
    if from < k {
        lemma_first_index_unique(s, c, from + 1, k);
    }
}

proof fn lemma_first_index_none(s: Seq<char>, c: char, from: int)
    requires
        0 <= from,
        forall|m: int| from <= m < s.len() ==> s[m] != c,
    ensures
        first_index_from(s, c, from) is None,
    decreases s.len() - from,
{
    if from < s.len() {
        lemma_first_index_none(s, c, from + 1);
    }
}

/// Dropping a first character that is neither bracket keeps the first
/// brackets where they were, one place earlier.
proof fn lemma_drop_first_keeps(s: Seq<char>)
    requires
        s.len() > 0,
        s[0] != '(',
        s[0] != ')',
        no_count_group(s),
    ensures
        no_count_group(s.drop_first()),
{
    let t = s.drop_first();
    lemma_first_index_from_props(s, '(', 0);
    match first_index_from(s, '(', 0) {
        None => {
            lemma_first_index_none(t, '(', 0);
        },
        Some(st) => {
            lemma_first_index_unique(t, '(', 0, st - 1);
            lemma_first_index_from_props(s, ')', st);
            match first_index_from(s, ')', st) {
                None => {
                    lemma_first_index_none(t, ')', st - 1);
                },
                Some(e) => {
                    lemma_first_index_unique(t, ')', st - 1, e - 1);
                    assert(t.subrange(st, e - 1) =~= s.subrange(st + 1, e));
                },
            }
        },
    }
}

/// Dropping a last character that is neither bracket keeps the first
/// brackets.
proof fn lemma_drop_last_keeps(s: Seq<char>)
    requires
        s.len() > 0,
        s.last() != '(',
        s.last() != ')',
        no_count_group(s),
    ensures
        no_count_group(s.drop_last()),
{
    let t = s.drop_last();
    lemma_first_index_from_props(s, '(', 0);
    match first_index_from(s, '(', 0) {
        None => {
            lemma_first_index_none(t, '(', 0);
        },
        Some(st) => {
            lemma_first_index_unique(t, '(', 0, st);
            lemma_first_index_from_props(s, ')', st);
            match first_index_from(s, ')', st) {
                None => {
                    lemma_first_index_none(t, ')', st);
                },
                Some(e) => {
                    lemma_first_index_unique(t, ')', st, e);
                    assert(t.subrange(st + 1, e) =~= s.subrange(st + 1, e));
                },
            }
        },
    }
}

proof fn lemma_trim_keeps(s: Seq<char>)
    requires
        no_count_group(s),
    ensures
        no_count_group(trim_start(s)),
        no_count_group(trim_end(s)),
    decreases s.len(),
{
    if s.len() > 0 && is_ws(s[0]) {
        lemma_drop_first_keeps(s);
        lemma_trim_keeps(s.drop_first());
    }
    if s.len() > 0 && is_ws(s.last()) {
        lemma_drop_last_keeps(s);
        lemma_trim_keeps(s.drop_last());
    }
}

proof fn lemma_strip_groups_settles(s: Seq<char>)
    ensures
        no_count_group(strip_groups(s)),
    decreases s.len(),
{
    match first_index_from(s, '(', 0) {
        None => {},
        Some(start) => match first_index_from(s, ')', start) {
            None => {},
            Some(end) => {
                if digits_and_spaces(trim(s.subrange(start + 1, end))) {
                    lemma_first_index_from_props(s, '(', 0);
                    lemma_first_index_from_props(s, ')', start);
                    lemma_trim_end_is_prefix(s.subrange(0, start));
                    lemma_strip_groups_settles(
                        trim_end(s.subrange(0, start)) + s.subrange(end + 1, s.len() as int),
                    );
                }
            },
        },
    }
}

proof fn lemma_trim_start_lead(s: Seq<char>)
    ensures
        trim_start(s).len() > 0 ==> !is_ws(trim_start(s)[0]),
    decreases s.len(),
{
    if s.len() > 0 && is_ws(s[0]) {
        lemma_trim_start_lead(s.drop_first());
    }
}

proof fn lemma_trim_end_tail(s: Seq<char>)
    ensures
        trim_end(s).len() > 0 ==> !is_ws(trim_end(s).last()),
    decreases s.len(),
{
    if s.len() > 0 && is_ws(s.last()) {
        lemma_trim_end_tail(s.drop_last());
    }
}

proof fn lemma_trim_idempotent(s: Seq<char>)
    ensures
        trim(trim(s)) == trim(s),
{
    let a = trim_start(s);
    let t = trim_end(a);
    lemma_trim_start_lead(s);
    lemma_trim_end_tail(a);
    lemma_trim_end_is_prefix(a);
    if t.len() > 0 {
        assert(t[0] == a[0]);
    }
    assert(trim_start(t) == t);
    assert(trim_end(t) == t);
}

/// Stripping dynamic counts twice gives what stripping once gives.
pub proof fn law_strip_counts_idempotent(s: Seq<char>)
    ensures
        stripped_counts(stripped_counts(s)) == stripped_counts(s),
{
    let r = strip_groups(s);
    lemma_strip_groups_settles(s);
    lemma_trim_keeps(r);
    lemma_trim_keeps(trim_start(r));
    let t = trim(r);
    assert(no_count_group(t));
    assert(strip_groups(t) == t);
    lemma_trim_idempotent(r);
}

} // verus!
