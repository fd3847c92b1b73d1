//! What every comparison report keeps: unmatched source elements are
//! errors and unmatched target elements information, each compared element
//! is counted once, every warning comes from a matched pair, a matched
//! pair's lines never read as `MISSING` or `EXTRA` lines, and a content
//! change on a matched pair is an error.

use vstd::prelude::*;

use crate::diff::{
    all_diags, bounds_diags, diff_colors_ok, kept, report_holds, decoded_content, extra_diag, extra_diags, kept_elements, match_label, matches_diags,
    missing_diag, missing_diags, or_none, pair_diags, pair_diags_head, severity_messages,
    text_diags, DiagView, Severity, ColorDistance, viewport_width,
};
use crate::matching::{matched_state, unflagged, ElementMatch};
use crate::diff::root_container;
use crate::schema::{SemanticElement, SemanticSchema};
use crate::tolerance::Tolerances;

verus! {

pub open spec fn messages(ds: Seq<DiagView>) -> Seq<Seq<char>> {
    ds.map_values(|d: DiagView| d.1)
}

proof fn lemma_severity_concat(a: Seq<DiagView>, b: Seq<DiagView>, sev: Severity)
    ensures
        severity_messages(a + b, sev) == severity_messages(a, sev) + severity_messages(b, sev),
    decreases b.len(),
{
    if b.len() == 0 {
        assert(a + b =~= a);
        assert(severity_messages(a, sev) + Seq::<Seq<char>>::empty() =~= severity_messages(a, sev));
    } else {
        lemma_severity_concat(a, b.drop_last(), sev);
        assert((a + b).drop_last() =~= a + b.drop_last());
        assert((a + b).last() == b.last());
        if b.last().0 == sev {
            assert(severity_messages(a, sev) + severity_messages(b.drop_last(), sev).push(b.last().1)
                =~= (severity_messages(a, sev) + severity_messages(b.drop_last(), sev)).push(
                b.last().1,
            ));
        }
    }
}

/// A list of diagnostics that all have one severity.
pub open spec fn all_of(ds: Seq<DiagView>, sev: Severity) -> bool {
    forall|j: int| 0 <= j < ds.len() ==> (#[trigger] ds[j]).0 == sev
}

proof fn lemma_severity_uniform(ds: Seq<DiagView>, sev: Severity, other: Severity)
    requires
        all_of(ds, sev),
    ensures
        severity_messages(ds, sev) == messages(ds),
        other != sev ==> severity_messages(ds, other) == Seq::<Seq<char>>::empty(),
    decreases ds.len(),
{
    if ds.len() > 0 {
        let rest = ds.drop_last();
        assert forall|j: int| 0 <= j < rest.len() implies (#[trigger] rest[j]).0 == sev by {
            assert(rest[j] == ds[j]);
        }
        lemma_severity_uniform(rest, sev, other);
        assert(messages(ds) =~= messages(rest).push(ds.last().1));
        assert(ds[ds.len() - 1].0 == sev);
    } else {
        assert(messages(ds) =~= Seq::<Seq<char>>::empty());
    }
}

/// Every unmatched source element gives exactly one error, its `MISSING`
/// line, and every unmatched target element exactly one information line,
/// its `EXTRA` line; all warnings, and every other error and information
/// line, come from the matched pairs.
pub proof fn law_unmatched_are_missing_and_extra(
    src: SemanticSchema,
    tgt: SemanticSchema,
    tol: Option<Tolerances>,
    accessible_only: bool,
    table: Seq<ColorDistance>,
)
    ensures
        ({
            let s = kept_elements(src.elements@, accessible_only);
            let t = kept_elements(tgt.elements@, accessible_only);
            let st = matched_state(s, t);
            let sp = src.platform@;
            let tp = tgt.platform@;
            let all = all_diags(src, tgt, tol, accessible_only, table);
            let md = matches_diags(sp, tp, s, t, st.0, tol, table, viewport_width(src, tgt));
            &&& severity_messages(all, Severity::Error) == messages(
                missing_diags(sp, tp, s, unflagged(st.1, s.len() as int)),
            ) + severity_messages(md, Severity::Error)
            &&& severity_messages(all, Severity::Warning) == severity_messages(md, Severity::Warning)
            &&& severity_messages(all, Severity::Info) == messages(
                extra_diags(sp, tp, t, unflagged(st.2, t.len() as int)),
            ) + severity_messages(md, Severity::Info)
        }),
{
    let s = kept_elements(src.elements@, accessible_only);
    let t = kept_elements(tgt.elements@, accessible_only);
    let st = matched_state(s, t);
    let sp = src.platform@;
    let tp = tgt.platform@;
    let md = matches_diags(sp, tp, s, t, st.0, tol, table, viewport_width(src, tgt));
    let miss = missing_diags(sp, tp, s, unflagged(st.1, s.len() as int));
    let extra = extra_diags(sp, tp, t, unflagged(st.2, t.len() as int));
    assert(all_of(miss, Severity::Error));
    assert(all_of(extra, Severity::Info));
    lemma_severity_concat(miss + extra, md, Severity::Error);
    lemma_severity_concat(miss + extra, md, Severity::Warning);
    lemma_severity_concat(miss + extra, md, Severity::Info);
    lemma_severity_concat(miss, extra, Severity::Error);
    lemma_severity_concat(miss, extra, Severity::Warning);
    lemma_severity_concat(miss, extra, Severity::Info);
    lemma_severity_uniform(miss, Severity::Error, Severity::Warning);
    lemma_severity_uniform(miss, Severity::Error, Severity::Info);
    lemma_severity_uniform(extra, Severity::Info, Severity::Error);
    lemma_severity_uniform(extra, Severity::Info, Severity::Warning);
    assert(messages(miss) + Seq::<Seq<char>>::empty() =~= messages(miss));
    assert(Seq::<Seq<char>>::empty() + messages(extra) =~= messages(extra));
    assert(Seq::<Seq<char>>::empty() + Seq::<Seq<char>>::empty() =~= Seq::<Seq<char>>::empty());
    assert(Seq::<Seq<char>>::empty() + severity_messages(md, Severity::Warning) =~= severity_messages(
        md,
        Severity::Warning,
    ));
}

proof fn lemma_severity_contains(ds: Seq<DiagView>, j: int)
    requires
        0 <= j < ds.len(),
    ensures
        severity_messages(ds, ds[j].0).contains(ds[j].1),
    decreases ds.len(),
{
    let sev = ds[j].0;
    if j == ds.len() - 1 {
        let r = severity_messages(ds, sev);
        assert(r == severity_messages(ds.drop_last(), sev).push(ds[j].1));
        assert(r[r.len() - 1] == ds[j].1);
    } else {
        let rest = ds.drop_last();
        assert(rest[j] == ds[j]);
        lemma_severity_contains(rest, j);
        let r = severity_messages(rest, sev);
        let w = choose|w: int| 0 <= w < r.len() && r[w] == ds[j].1;
        if ds.last().0 == sev {
            assert(severity_messages(ds, sev)[w] == r.push(ds.last().1)[w]);
        }
    }
}

proof fn lemma_matches_contain(
    sp: Seq<char>,
    tp: Seq<char>,
    s: Seq<SemanticElement>,
    t: Seq<SemanticElement>,
    ms: Seq<ElementMatch>,
    tol: Option<Tolerances>,
    table: Seq<ColorDistance>,
    vw: int,
    k: int,
) -> (off: int)
    requires
        0 <= k < ms.len(),
    ensures
        ({
            let pd = pair_diags(sp, tp, s[ms[k].src as int], t[ms[k].tgt as int], tol, table, vw);
            let md = matches_diags(sp, tp, s, t, ms, tol, table, vw);
            &&& 0 <= off
            &&& off + pd.len() <= md.len()
            &&& forall|i: int| 0 <= i < pd.len() ==> md[off + i] == #[trigger] pd[i]
        }),
    decreases ms.len(),
{
    let pd = pair_diags(sp, tp, s[ms[k].src as int], t[ms[k].tgt as int], tol, table, vw);
    let md = matches_diags(sp, tp, s, t, ms, tol, table, vw);
    let prev = matches_diags(sp, tp, s, t, ms.drop_last(), tol, table, vw);
    let last = ms.last();
    let lpd = pair_diags(sp, tp, s[last.src as int], t[last.tgt as int], tol, table, vw);
    assert(md == prev + lpd);
    if k == ms.len() - 1 {
        prev.len() as int
    } else {
        assert(ms.drop_last()[k] == ms[k]);
        let off = lemma_matches_contain(sp, tp, s, t, ms.drop_last(), tol, table, vw, k);
        assert forall|i: int| 0 <= i < pd.len() implies md[off + i] == #[trigger] pd[i] by {
            assert(prev[off + i] == pd[i]);
        }
        off
    }
}

/// The `WRONG_TEXT` line of a matched pair.
pub open spec fn wrong_text_message(sp: Seq<char>, tp: Seq<char>, s: SemanticElement, t: SemanticElement) -> Seq<char> {
    "WRONG_TEXT: "@ + match_label(s) + " — "@ + sp + ":\""@ + or_none(decoded_content(s)) + "\" "@ + tp
        + ":\""@ + or_none(decoded_content(t)) + "\""@
}

/// A content change between the two elements of a matched pair (after
/// entity decoding, with an absent content as its own value) is always
/// reported as an error, the pair's `WRONG_TEXT` line.
pub proof fn law_text_drift_is_error(
    src: SemanticSchema,
    tgt: SemanticSchema,
    tol: Option<Tolerances>,
    accessible_only: bool,
    table: Seq<ColorDistance>,
    k: int,
)
    requires
        ({
            let s = kept_elements(src.elements@, accessible_only);
            let t = kept_elements(tgt.elements@, accessible_only);
            let ms = matched_state(s, t).0;
            &&& 0 <= k < ms.len()
            &&& decoded_content(s[ms[k].src as int]) != decoded_content(t[ms[k].tgt as int])
        }),
    ensures
        ({
            let s = kept_elements(src.elements@, accessible_only);
            let t = kept_elements(tgt.elements@, accessible_only);
            let ms = matched_state(s, t).0;
            severity_messages(all_diags(src, tgt, tol, accessible_only, table), Severity::Error).contains(
                wrong_text_message(src.platform@, tgt.platform@, s[ms[k].src as int], t[ms[k].tgt as int]),
            )
        }),
{
    let s = kept_elements(src.elements@, accessible_only);
    let t = kept_elements(tgt.elements@, accessible_only);
    let st = matched_state(s, t);
    let ms = st.0;
    let sp = src.platform@;
    let tp = tgt.platform@;
    let vw = viewport_width(src, tgt);
    let se = s[ms[k].src as int];
    let te = t[ms[k].tgt as int];
    let d: DiagView = (Severity::Error, wrong_text_message(sp, tp, se, te));
    let pd = pair_diags(sp, tp, se, te, tol, table, vw);
    assert(text_diags(match_label(se), sp, tp, se, te) == seq![d]);
    assert(pd[0] == d) by {
        assert(pd == pair_diags_head(sp, tp, se, te, tol, table) + crate::diff::pair_diags_tail(
            sp,
            tp,
            se,
            te,
            tol,
            table,
            vw,
        ));
    }
    let off = lemma_matches_contain(sp, tp, s, t, ms, tol, table, vw, k);
    let md = matches_diags(sp, tp, s, t, ms, tol, table, vw);
    assert(md[off + 0] == pd[0]);
    let miss = missing_diags(sp, tp, s, unflagged(st.1, s.len() as int));
    let extra = extra_diags(sp, tp, t, unflagged(st.2, t.len() as int));
    let all = all_diags(src, tgt, tol, accessible_only, table);
    assert(all == miss + extra + md);
    let j = miss.len() + extra.len() + off;
    assert(all[j] == d);
    lemma_severity_contains(all, j);
}

/// The elements marked accessible, in order.
pub open spec fn accessible_elements(es: Seq<SemanticElement>) -> Seq<SemanticElement>
    decreases es.len(),
{
    if es.len() == 0 {
        Seq::empty()
    } else if es.last().accessible == Some(true) {
        accessible_elements(es.drop_last()).push(es.last())
    } else {
        accessible_elements(es.drop_last())
    }
}

proof fn lemma_accessible_kept(es: Seq<SemanticElement>)
    ensures
        kept_elements(es, true) == kept_elements(accessible_elements(es), false),
    decreases es.len(),
{
    if es.len() > 0 {
        lemma_accessible_kept(es.drop_last());
        let a = accessible_elements(es);
        if es.last().accessible == Some(true) {
            assert(a.drop_last() =~= accessible_elements(es.drop_last()));
            assert(a.last() == es.last());
            assert(kept(es.last(), true) == kept(es.last(), false));
        }
    }
}

/// Comparing with `accessible_only` is comparing, without it, the captures
/// cut down to their accessible elements: the same elements are compared,
/// the same diagnostics come out, the same captures are comparable, and the
/// same reports hold.
pub proof fn law_accessible_only_is_prefiltering(
    src: SemanticSchema,
    tgt: SemanticSchema,
    src2: SemanticSchema,
    tgt2: SemanticSchema,
    tol: Option<Tolerances>,
    table: Seq<ColorDistance>,
)
    requires
        src2.platform == src.platform,
        src2.viewport == src.viewport,
        src2.elements@ == accessible_elements(src.elements@),
        tgt2.platform == tgt.platform,
        tgt2.viewport == tgt.viewport,
        tgt2.elements@ == accessible_elements(tgt.elements@),
    ensures
        kept_elements(src.elements@, true) == kept_elements(src2.elements@, false),
        kept_elements(tgt.elements@, true) == kept_elements(tgt2.elements@, false),
        all_diags(src, tgt, tol, true, table) == all_diags(src2, tgt2, tol, false, table),
        diff_colors_ok(src, tgt, true) == diff_colors_ok(src2, tgt2, false),
        forall|r: crate::diff::DiffReport| #[trigger] report_holds(src, tgt, tol, true, table, r) == report_holds(
            src2,
            tgt2,
            tol,
            false,
            table,
            r,
        ),
{
    lemma_accessible_kept(src.elements@);
    lemma_accessible_kept(tgt.elements@);
    assert(viewport_width(src, tgt) == viewport_width(src2, tgt2));
}

/// A pair with a root container on either side reports no position or
/// size drift, however far apart its boxes are.
pub proof fn law_root_containers_have_no_bounds_drift(
    id: Seq<char>,
    sp: Seq<char>,
    tp: Seq<char>,
    s: SemanticElement,
    t: SemanticElement,
    tol: Option<Tolerances>,
    vw: int,
)
    requires
        root_container(s.id@) || root_container(t.id@),
    ensures
        bounds_diags(id, sp, tp, s, t, tol, vw) == Seq::<DiagView>::empty(),
{
}

/// For a matched pair with a root container on either side, the pair's
/// diagnostics are exactly its text, type, colour, font, background, icon,
/// line, truncation, gradient, border and radius checks, with no position
/// or size part.
pub proof fn law_root_pairs_keep_attribute_checks(
    sp: Seq<char>,
    tp: Seq<char>,
    s: SemanticElement,
    t: SemanticElement,
    tol: Option<Tolerances>,
    table: Seq<ColorDistance>,
    vw: int,
)
    requires
        root_container(s.id@) || root_container(t.id@),
    ensures
        ({
            let id = match_label(s);
            pair_diags(sp, tp, s, t, tol, table, vw) == pair_diags_head(sp, tp, s, t, tol, table) + (
            crate::diff::line_diags(id, sp, tp, s, t) + crate::diff::truncated_diags(id, sp, tp, s, t)
                + crate::diff::gradient_diags(id, sp, tp, s, t) + crate::diff::border_diags(
                id,
                sp,
                tp,
                s,
                t,
                tol,
                table,
            ) + crate::diff::radius_diags(id, sp, tp, s, t, tol))
        }),
{
    let id = match_label(s);
    let x = crate::diff::line_diags(id, sp, tp, s, t) + crate::diff::truncated_diags(id, sp, tp, s, t)
        + crate::diff::gradient_diags(id, sp, tp, s, t) + crate::diff::border_diags(id, sp, tp, s, t, tol, table)
        + crate::diff::radius_diags(id, sp, tp, s, t, tol);
    assert(bounds_diags(id, sp, tp, s, t, tol, vw) == Seq::<DiagView>::empty());
    assert(x + Seq::<DiagView>::empty() =~= x);
}

/// For a matched pair without a root container, on a viewport `vw` wide:
/// a position line is reported exactly when the larger of the horizontal
/// and vertical offsets of the top-left corners exceeds 2 and is at most
/// twice the viewport width; a size line exactly when the larger of the
/// width and height changes exceeds 2 and is at most the source's larger
/// side (at least 1). Each is information without tolerances; with them,
/// information exactly when the drift, as a percentage of the viewport
/// width, is within the spatial tolerance, and a warning otherwise.
#[verifier::rlimit(50)]
pub proof fn law_bounds_lines(
    id: Seq<char>,
    sp: Seq<char>,
    tp: Seq<char>,
    s: SemanticElement,
    t: SemanticElement,
    tol: Option<Tolerances>,
    vw: int,
)
    requires
        vw > 0,
        !root_container(s.id@),
        !root_container(t.id@),
    ensures
        ({
            let dx = if s.bounds.x >= t.bounds.x { s.bounds.x - t.bounds.x } else { t.bounds.x - s.bounds.x };
            let dy = if s.bounds.y >= t.bounds.y { s.bounds.y - t.bounds.y } else { t.bounds.y - s.bounds.y };
            let dw = if s.bounds.w >= t.bounds.w { s.bounds.w - t.bounds.w } else { t.bounds.w - s.bounds.w };
            let dh = if s.bounds.h >= t.bounds.h { s.bounds.h - t.bounds.h } else { t.bounds.h - s.bounds.h };
            let pos = if dx >= dy { dx } else { dy };
            let size = if dw >= dh { dw } else { dh };
            let side = if s.bounds.w >= s.bounds.h { s.bounds.w as int } else { s.bounds.h as int };
            let reference = if side >= 1 { side } else { 1 };
            let spacing = pos > 2 && pos <= 2 * vw;
            let sizing = size > 2 && size <= reference;
            let ds = bounds_diags(id, sp, tp, s, t, tol, vw);
            &&& ds.len() == (if spacing { 1int } else { 0 }) + (if sizing { 1int } else { 0 })
            &&& spacing ==> ds[0].1.subrange(0, 9) == "SPACING: "@ && ds[0].0 == (match tol {
                None => Severity::Info,
                Some(tl) => if pos * 100 * 1_000_000 <= tl.spatial_pct * vw {
                    Severity::Info
                } else {
                    Severity::Warning
                },
            })
            &&& sizing ==> ds[ds.len() - 1].1.subrange(0, 6) == "SIZE: "@ && ds[ds.len() - 1].0 == (match tol {
                None => Severity::Info,
                Some(tl) => if size * 100 * 1_000_000 <= tl.spatial_pct * vw {
                    Severity::Info
                } else {
                    Severity::Warning
                },
            })
        }),
{
    reveal_strlit("SPACING: ");
    reveal_strlit("SIZE: ");
    lemma_prefix_extends();
    let sb = s.bounds;
    let tb = t.bounds;
    let pos = crate::diff::max(crate::diff::abs(sb.x - tb.x), crate::diff::abs(sb.y - tb.y));
    assert(crate::diff::pct_le(pos, vw, 200_000_000) == (pos <= 2 * vw)) by (nonlinear_arith)
        requires
            vw > 0,
            crate::diff::pct_le(pos, vw, 200_000_000) == (pos * 100 * 1_000_000 <= 200_000_000 * vw),
    ;
}

proof fn lemma_prefix_extends()
    ensures
        forall|x: Seq<char>, y: Seq<char>, n: int|
            0 <= n <= x.len() ==> #[trigger] (x + y).subrange(0, n) == x.subrange(0, n),
        forall|x: Seq<char>| #[trigger] x.subrange(0, x.len() as int) == x,
{
    assert forall|x: Seq<char>, y: Seq<char>, n: int| 0 <= n <= x.len() implies #[trigger] (x + y).subrange(0, n)
        == x.subrange(0, n) by {
        assert((x + y).subrange(0, n) =~= x.subrange(0, n));
    }
    assert forall|x: Seq<char>| #[trigger] x.subrange(0, x.len() as int) == x by {
        assert(x.subrange(0, x.len() as int) =~= x);
    }
}

/// Leading `#`s do not change how a colour compares, and a colour without
/// one whose uppercase form is not eight bytes long compares as that
/// uppercase form.
pub proof fn law_colour_forms(c: Seq<char>)
    ensures
        crate::diff::normalized_color(seq!['#'] + c) == crate::diff::normalized_color(c),
        crate::diff::color_sliceable(seq!['#'] + c) == crate::diff::color_sliceable(c),
        (c.len() == 0 || c[0] != '#') && crate::matching::byte_len(crate::text::unicode_uppercase(c)) != 8
            ==> crate::diff::normalized_color(c) == crate::text::unicode_uppercase(c),
{
    let h = seq!['#'] + c;
    assert(h.drop_first() =~= c);
    assert(crate::diff::strip_hashes(h) == crate::diff::strip_hashes(c));
}

/// Without tolerances a position or size drift is only information, never
/// a warning, and is marked within tolerance.
pub proof fn law_untolerated_drift_is_information(
    id: Seq<char>,
    sp: Seq<char>,
    tp: Seq<char>,
    s: SemanticElement,
    t: SemanticElement,
    vw: int,
)
    ensures
        forall|k: int|
            0 <= k < bounds_diags(id, sp, tp, s, t, None, vw).len() ==> (#[trigger] bounds_diags(
                id,
                sp,
                tp,
                s,
                t,
                None,
                vw,
            )[k]).0 == Severity::Info,
{
}

proof fn lemma_kept_len(es: Seq<SemanticElement>, accessible_only: bool)
    ensures
        kept_elements(es, accessible_only).len() <= es.len(),
    decreases es.len(),
{
    if es.len() > 0 {
        lemma_kept_len(es.drop_last(), accessible_only);
    }
}

proof fn lemma_missing_prefix(sp: Seq<char>, tp: Seq<char>, es: Seq<SemanticElement>, idx: Seq<usize>, j: int)
    requires
        0 <= j < idx.len(),
    ensures
        messages(missing_diags(sp, tp, es, idx)).len() == idx.len(),
        messages(missing_diags(sp, tp, es, idx))[j].subrange(0, 9) == "MISSING: "@,
{
    let m = missing_diags(sp, tp, es, idx)[j].1;
    assert(m == missing_diag(sp, tp, es[idx[j] as int]).1);
    reveal_strlit("MISSING: \"");
    reveal_strlit("MISSING: ");
    assert(m.subrange(0, 9) =~= "MISSING: "@);
}

proof fn lemma_extra_prefix(sp: Seq<char>, tp: Seq<char>, es: Seq<SemanticElement>, idx: Seq<usize>, j: int)
    requires
        0 <= j < idx.len(),
    ensures
        messages(extra_diags(sp, tp, es, idx)).len() == idx.len(),
        messages(extra_diags(sp, tp, es, idx))[j].subrange(0, 7) == "EXTRA: "@,
{
    let m = extra_diags(sp, tp, es, idx)[j].1;
    assert(m == extra_diag(sp, tp, es[idx[j] as int]).1);
    reveal_strlit("EXTRA: \"");
    reveal_strlit("EXTRA: ");
    assert(m.subrange(0, 7) =~= "EXTRA: "@);
}

/// In every report, each compared source element is counted once, as
/// matched or as unmatched, and so is each compared target element; the
/// errors open with one `MISSING: ` line per unmatched source element and
/// the information lines with one `EXTRA: ` line per unmatched target
/// element, and every later line is a matched pair's, opening with `W`,
/// `D` or `S`: so exactly that many lines are `MISSING` and `EXTRA` lines.
pub proof fn law_report_counts(
    src: SemanticSchema,
    tgt: SemanticSchema,
    tol: Option<Tolerances>,
    accessible_only: bool,
    table: Seq<ColorDistance>,
    r: crate::diff::DiffReport,
)
    requires
        report_holds(src, tgt, tol, accessible_only, table, r),
    ensures
        r.matched + r.unmatched_source == kept_elements(src.elements@, accessible_only).len(),
        r.matched + r.unmatched_target == kept_elements(tgt.elements@, accessible_only).len(),
        r.unmatched_source <= r.errors.len(),
        r.unmatched_target <= r.infos.len(),
        forall|j: int|
            0 <= j < r.unmatched_source ==> (#[trigger] r.errors.deep_view()[j]).subrange(0, 9) == "MISSING: "@,
        forall|j: int|
            0 <= j < r.unmatched_target ==> (#[trigger] r.infos.deep_view()[j]).subrange(0, 7) == "EXTRA: "@,
        forall|j: int| r.unmatched_source <= j < r.errors.len() ==> pair_lead(#[trigger] r.errors.deep_view()[j]),
        forall|j: int| r.unmatched_target <= j < r.infos.len() ==> pair_lead(#[trigger] r.infos.deep_view()[j]),
{
    let s = kept_elements(src.elements@, accessible_only);
    let t = kept_elements(tgt.elements@, accessible_only);
    lemma_kept_len(src.elements@, accessible_only);
    lemma_kept_len(tgt.elements@, accessible_only);
    assert(src.elements.len() == src.elements@.len());
    assert(tgt.elements.len() == tgt.elements@.len());
    crate::matching_laws::law_matching_counts(s, t);
    law_unmatched_are_missing_and_extra(src, tgt, tol, accessible_only, table);
    let st = matched_state(s, t);
    let sp = src.platform@;
    let tp = tgt.platform@;
    let md = matches_diags(sp, tp, s, t, st.0, tol, table, viewport_width(src, tgt));
    let us = unflagged(st.1, s.len() as int);
    let ut = unflagged(st.2, t.len() as int);
    let mm = messages(missing_diags(sp, tp, s, us));
    let em = messages(extra_diags(sp, tp, t, ut));
    assert(r.errors.deep_view() == mm + severity_messages(md, Severity::Error));
    assert(r.infos.deep_view() == em + severity_messages(md, Severity::Info));
    assert forall|j: int| 0 <= j < us.len() implies (#[trigger] mm[j]).subrange(0, 9) == "MISSING: "@ by {
        lemma_missing_prefix(sp, tp, s, us, j);
    }
    assert forall|j: int| 0 <= j < ut.len() implies (#[trigger] em[j]).subrange(0, 7) == "EXTRA: "@ by {
        lemma_extra_prefix(sp, tp, t, ut, j);
    }
    lemma_prefixed_head(mm, severity_messages(md, Severity::Error), r.errors.deep_view(), 9, "MISSING: "@);
    lemma_prefixed_head(em, severity_messages(md, Severity::Info), r.infos.deep_view(), 7, "EXTRA: "@);
    lemma_matches_lead(sp, tp, s, t, st.0, tol, table, viewport_width(src, tgt));
    lemma_severity_lead(md, Severity::Error);
    lemma_severity_lead(md, Severity::Info);
    lemma_tail_lead(mm, severity_messages(md, Severity::Error), r.errors.deep_view());
    lemma_tail_lead(em, severity_messages(md, Severity::Info), r.infos.deep_view());
}

proof fn lemma_tail_lead(a: Seq<Seq<char>>, b: Seq<Seq<char>>, c: Seq<Seq<char>>)
    requires
        c == a + b,
        forall|j: int| 0 <= j < b.len() ==> pair_lead(#[trigger] b[j]),
    ensures
        forall|j: int| a.len() <= j < c.len() ==> pair_lead(#[trigger] c[j]),
{
    assert forall|j: int| a.len() <= j < c.len() implies pair_lead(#[trigger] c[j]) by {
        assert(c[j] == b[j - a.len()]);
    }
}

proof fn lemma_prefixed_head(a: Seq<Seq<char>>, b: Seq<Seq<char>>, c: Seq<Seq<char>>, n: int, p: Seq<char>)
    requires
        c == a + b,
        forall|j: int| 0 <= j < a.len() ==> (#[trigger] a[j]).subrange(0, n) == p,
    ensures
        a.len() <= c.len(),
        forall|j: int| 0 <= j < a.len() ==> (#[trigger] c[j]).subrange(0, n) == p,
{
    assert forall|j: int| 0 <= j < a.len() implies (#[trigger] c[j]).subrange(0, n) == p by {
        assert(c[j] == a[j]);
    }
}

/// A message that opens with `W`, `D` or `S`: the first letter of every
/// kind of difference a matched pair can show.
pub open spec fn pair_lead(m: Seq<char>) -> bool {
    m.len() > 0 && (m[0] == 'W' || m[0] == 'D' || m[0] == 'S')
}

pub open spec fn pair_leads(ds: Seq<DiagView>) -> bool {
    forall|j: int| 0 <= j < ds.len() ==> pair_lead(#[trigger] ds[j].1)
}

proof fn lemma_lead_extends()
    ensures
        forall|x: Seq<char>, y: Seq<char>| pair_lead(x) ==> pair_lead(#[trigger] (x + y)),
{
    assert forall|x: Seq<char>, y: Seq<char>| pair_lead(x) implies pair_lead(#[trigger] (x + y)) by {
        assert((x + y)[0] == x[0]);
    }
}

proof fn lemma_leads_concat(a: Seq<DiagView>, b: Seq<DiagView>)
    requires
        pair_leads(a),
        pair_leads(b),
    ensures
        pair_leads(a + b),
{
    assert forall|j: int| 0 <= j < (a + b).len() implies pair_lead(#[trigger] (a + b)[j].1) by {
        if j < a.len() {
            assert((a + b)[j] == a[j]);
        } else {
            assert((a + b)[j] == b[j - a.len()]);
        }
    }
}

proof fn lemma_color_leads(
    tag: Seq<char>,
    id: Seq<char>,
    sp: Seq<char>,
    tp: Seq<char>,
    a: Option<String>,
    b: Option<String>,
    tol: Option<Tolerances>,
    table: Seq<ColorDistance>,
)
    requires
        pair_lead(tag),
    ensures
        pair_leads(crate::diff::color_pair_diags(tag, id, sp, tp, a, b, tol, table)),
{
    lemma_lead_extends();
    match (a, b) {
        (Some(x), Some(y)) => {
            let d = crate::diff::color_check(tag, id, sp, tp, x@, y@, tol, table);
            assert(pair_lead(d.1));
        },
        _ => {},
    }
}

proof fn lemma_head_leads(
    sp: Seq<char>,
    tp: Seq<char>,
    s: SemanticElement,
    t: SemanticElement,
    tol: Option<Tolerances>,
    table: Seq<ColorDistance>,
)
    ensures
        pair_leads(pair_diags_head(sp, tp, s, t, tol, table)),
{
    lemma_lead_extends();
    let id = match_label(s);
    reveal_strlit("WRONG_TEXT: ");
    reveal_strlit("WRONG_TYPE: ");
    reveal_strlit("WRONG_COLOR");
    reveal_strlit("WRONG_BACKGROUND");
    reveal_strlit("DIFF_FONT_FAMILY: ");
    reveal_strlit("WRONG_FONT_WEIGHT: ");
    reveal_strlit("WRONG_FONT_SIZE: ");
    reveal_strlit("WRONG_ICON: ");
    let a = text_diags(id, sp, tp, s, t);
    let b = crate::diff::type_diags(id, sp, tp, s, t);
    let c = crate::diff::color_pair_diags("WRONG_COLOR"@, id, sp, tp, crate::diff::text_color(s), crate::diff::text_color(t), tol, table);
    let f = crate::diff::font_diags(id, sp, tp, s, t, tol);
    let g = crate::diff::color_pair_diags("WRONG_BACKGROUND"@, id, sp, tp, s.background, t.background, tol, table);
    let h = crate::diff::icon_diags(id, s, t);
    lemma_color_leads("WRONG_COLOR"@, id, sp, tp, crate::diff::text_color(s), crate::diff::text_color(t), tol, table);
    lemma_color_leads("WRONG_BACKGROUND"@, id, sp, tp, s.background, t.background, tol, table);
    assert(pair_leads(a));
    assert(pair_leads(b));
    match (s.font, t.font) {
        (Some(sf), Some(tf)) => {
            let fam = crate::diff::when(
                sf.family@.len() > 0 && tf.family@.len() > 0 && crate::text::unicode_lowercase(sf.family@)
                    != crate::text::unicode_lowercase(tf.family@),
                (
                    Severity::Info,
                    "DIFF_FONT_FAMILY: "@ + id + " — "@ + sp + ":"@ + sf.family@ + " "@ + tp + ":"@
                        + tf.family@,
                ),
            );
            assert(pair_leads(fam));
            assert(pair_leads(f)) by {
                assert forall|j: int| 0 <= j < f.len() implies pair_lead(#[trigger] f[j].1) by {
                    let m = f[j].1;
                    if j >= fam.len() {
                        assert(m[0] == 'W');
                    }
                }
            }
        },
        _ => {},
    }
    assert(pair_leads(h));
    lemma_leads_concat(a, b);
    lemma_leads_concat(a + b, c);
    lemma_leads_concat(a + b + c, f);
    lemma_leads_concat(a + b + c + f, g);
    lemma_leads_concat(a + b + c + f + g, h);
}

proof fn lemma_line_leads(id: Seq<char>, sp: Seq<char>, tp: Seq<char>, s: SemanticElement, t: SemanticElement)
    ensures
        pair_leads(crate::diff::line_diags(id, sp, tp, s, t)),
        pair_leads(crate::diff::truncated_diags(id, sp, tp, s, t)),
{
    lemma_lead_extends();
    reveal_strlit("WRONG_LINE_COUNT: ");
    reveal_strlit("WRONG_TRUNCATED: ");
}

proof fn lemma_gradient_leads(id: Seq<char>, sp: Seq<char>, tp: Seq<char>, s: SemanticElement, t: SemanticElement)
    ensures
        pair_leads(crate::diff::gradient_diags(id, sp, tp, s, t)),
{
    lemma_lead_extends();
    reveal_strlit("WRONG_GRADIENT_TYPE: ");
    reveal_strlit("WRONG_GRADIENT_COLORS: ");
    let c = crate::diff::gradient_diags(id, sp, tp, s, t);
    match (s.gradient, t.gradient) {
        (Some(sg), Some(tg)) => {
            assert forall|j: int| 0 <= j < c.len() implies pair_lead(#[trigger] c[j].1) by {
                assert(c[j].1[0] == 'W');
            }
        },
        _ => {},
    }
}

proof fn lemma_border_leads(
    id: Seq<char>,
    sp: Seq<char>,
    tp: Seq<char>,
    s: SemanticElement,
    t: SemanticElement,
    tol: Option<Tolerances>,
    table: Seq<ColorDistance>,
)
    ensures
        pair_leads(crate::diff::border_diags(id, sp, tp, s, t, tol, table)),
        pair_leads(crate::diff::radius_diags(id, sp, tp, s, t, tol)),
{
    lemma_lead_extends();
    reveal_strlit("WRONG_BORDER_WIDTH: ");
    reveal_strlit("WRONG_BORDER_COLOR");
    reveal_strlit("WRONG_RADIUS: ");
    match (s.border, t.border) {
        (Some(sb), Some(tb)) => {
            lemma_color_leads("WRONG_BORDER_COLOR"@, id, sp, tp, sb.color, tb.color, tol, table);
            let diff = crate::diff::abs(sb.width - tb.width);
            let within = match tol {
                None => diff <= 500_000,
                Some(t) => diff <= t.border_width_px,
            };
            let w = crate::diff::when(
                diff > 100_000,
                (
                    crate::diff::verdict(within),
                    "WRONG_BORDER_WIDTH: "@ + id + " — "@ + sp + ":"@ + crate::numfmt::micro_str(sb.width as int)
                        + "dp "@ + tp + ":"@ + crate::numfmt::micro_str(tb.width as int) + "dp (Δ"@ + crate::numfmt::tenths_str(
                        diff,
                        1_000_000,
                    ) + "dp"@ + crate::diff::suffix(within) + ")"@,
                ),
            );
            assert(pair_leads(w));
            lemma_leads_concat(
                w,
                crate::diff::color_pair_diags("WRONG_BORDER_COLOR"@, id, sp, tp, sb.color, tb.color, tol, table),
            );
        },
        _ => {},
    }
}

proof fn lemma_bounds_leads(
    id: Seq<char>,
    sp: Seq<char>,
    tp: Seq<char>,
    s: SemanticElement,
    t: SemanticElement,
    tol: Option<Tolerances>,
    vw: int,
)
    ensures
        pair_leads(bounds_diags(id, sp, tp, s, t, tol, vw)),
{
    lemma_lead_extends();
    reveal_strlit("SPACING: ");
    reveal_strlit("SIZE: ");
    let f = bounds_diags(id, sp, tp, s, t, tol, vw);
    if !(crate::diff::root_container(s.id@) || crate::diff::root_container(t.id@)) {
        assert forall|j: int| 0 <= j < f.len() implies pair_lead(#[trigger] f[j].1) by {
            assert(f[j].1[0] == 'S');
        }
    }
}

proof fn lemma_tail_leads(
    sp: Seq<char>,
    tp: Seq<char>,
    s: SemanticElement,
    t: SemanticElement,
    tol: Option<Tolerances>,
    table: Seq<ColorDistance>,
    vw: int,
)
    ensures
        pair_leads(crate::diff::pair_diags_tail(sp, tp, s, t, tol, table, vw)),
{
    let id = match_label(s);
    let a = crate::diff::line_diags(id, sp, tp, s, t);
    let b = crate::diff::truncated_diags(id, sp, tp, s, t);
    let c = crate::diff::gradient_diags(id, sp, tp, s, t);
    let d = crate::diff::border_diags(id, sp, tp, s, t, tol, table);
    let e = crate::diff::radius_diags(id, sp, tp, s, t, tol);
    let f = bounds_diags(id, sp, tp, s, t, tol, vw);
    lemma_line_leads(id, sp, tp, s, t);
    lemma_gradient_leads(id, sp, tp, s, t);
    lemma_border_leads(id, sp, tp, s, t, tol, table);
    lemma_bounds_leads(id, sp, tp, s, t, tol, vw);
    lemma_leads_concat(a, b);
    lemma_leads_concat(a + b, c);
    lemma_leads_concat(a + b + c, d);
    lemma_leads_concat(a + b + c + d, e);
    lemma_leads_concat(a + b + c + d + e, f);
}

/// Every difference line of a matched pair opens with `W` (`WRONG_…`),
/// `D` (`DIFF_FONT_FAMILY`) or `S` (`SPACING`, `SIZE`), never as an
/// unmatched element's `MISSING` or `EXTRA` line does.
pub proof fn law_pair_lines_lead(
    sp: Seq<char>,
    tp: Seq<char>,
    s: SemanticElement,
    t: SemanticElement,
    tol: Option<Tolerances>,
    table: Seq<ColorDistance>,
    vw: int,
)
    ensures
        pair_leads(pair_diags(sp, tp, s, t, tol, table, vw)),
{
    lemma_head_leads(sp, tp, s, t, tol, table);
    lemma_tail_leads(sp, tp, s, t, tol, table, vw);
    lemma_leads_concat(pair_diags_head(sp, tp, s, t, tol, table), crate::diff::pair_diags_tail(sp, tp, s, t, tol, table, vw));
}

proof fn lemma_matches_lead(
    sp: Seq<char>,
    tp: Seq<char>,
    s: Seq<SemanticElement>,
    t: Seq<SemanticElement>,
    ms: Seq<ElementMatch>,
    tol: Option<Tolerances>,
    table: Seq<ColorDistance>,
    vw: int,
)
    ensures
        pair_leads(matches_diags(sp, tp, s, t, ms, tol, table, vw)),
    decreases ms.len(),
{
    if ms.len() > 0 {
        let m = ms.last();
        lemma_matches_lead(sp, tp, s, t, ms.drop_last(), tol, table, vw);
        law_pair_lines_lead(sp, tp, s[m.src as int], t[m.tgt as int], tol, table, vw);
        lemma_leads_concat(
            matches_diags(sp, tp, s, t, ms.drop_last(), tol, table, vw),
            pair_diags(sp, tp, s[m.src as int], t[m.tgt as int], tol, table, vw),
        );
    }
}

proof fn lemma_severity_lead(ds: Seq<DiagView>, sev: Severity)
    requires
        pair_leads(ds),
    ensures
        forall|j: int| 0 <= j < severity_messages(ds, sev).len() ==> pair_lead(#[trigger] severity_messages(ds, sev)[j]),
    decreases ds.len(),
{
    if ds.len() > 0 {
        let rest = ds.drop_last();
        assert forall|j: int| 0 <= j < rest.len() implies pair_lead(#[trigger] rest[j].1) by {
            assert(rest[j] == ds[j]);
        }
        lemma_severity_lead(rest, sev);
        assert(pair_lead(ds[ds.len() - 1].1));
        let pr = severity_messages(rest, sev);
        let r = severity_messages(ds, sev);
        assert forall|j: int| 0 <= j < r.len() implies pair_lead(#[trigger] r[j]) by {
            if ds.last().0 == sev {
                assert(r == pr.push(ds.last().1));
                if j < pr.len() {
                    assert(r[j] == pr[j]);
                }
            } else {
                assert(r == pr);
            }
        }
    }
}

} // verus!
