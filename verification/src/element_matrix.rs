//! `vdb element-matrix`: cross-platform drift aggregation.
//!
//! Every screen captured on several platforms is compared pairwise, each
//! (screen, platform-a, platform-b) cell carrying the worst severity of its
//! comparison. A pair that involves `figma` is mixed-mode: unless figma is
//! held as a strict peer, every severity of such a pair drops one notch
//! (errors become warnings, warnings become information).

use vstd::prelude::*;

use crate::diff::{all_diags, diff_colors_comparable, diff_colors_ok, diff_schemas, kept_elements, severity_messages, ColorDistance, Severity};
use crate::matching::matched_state;
use crate::numfmt::{fmt_nat, nat_str};
use crate::names::{
    lemma_name_lt_total, lemma_name_lt_transitive, name_less, name_lt,
};
use crate::schema::SemanticSchema;
use crate::text::{
    append_chars, append_str, chars_of, contains, find_char_from, first_index_from,
    lemma_first_index_from_props, seq_contains, str_eq, string_of, subvec,
};

verus! {

/// Arguments of `vdb element-matrix`.
pub struct ElementMatrixArgs {
    /// Catalogue root holding `<platform>/<screen>/semantic.yaml`.
    pub root: Option<String>,
    /// Exit semantics.
    pub exit: ExitMode,
    /// Comma-separated screen filter.
    pub screens: Option<String>,
    /// Comma-separated platform filter.
    pub platforms: Option<String>,
    /// Treat figma as a peer platform (no severity drop on figma pairs).
    pub strict_figma: bool,
    /// Emit JSON instead of the grid.
    pub json: bool,
}

/// When the command fails: on any diagnostic, on errors only, or never.
#[derive(Clone, Copy, Debug, PartialEq, Eq)]
pub enum ExitMode {
    Strict,
    ErrorOnly,
    ReportOnly,
}

/// Outcome of one (screen, platform-a, platform-b) cell.
#[derive(Debug)]
pub struct CellResult {
    pub screen: String,
    pub pair: (String, String),
    pub worst: Option<Severity>,
    pub matched: usize,
    pub errors: usize,
    pub warnings: usize,
    pub infos: usize,
    pub top_reason: Option<String>,
}

/// The mathematical content of a cell.
pub struct CellSpec {
    pub screen: Seq<char>,
    pub pa: Seq<char>,
    pub pb: Seq<char>,
    pub worst: Option<Severity>,
    pub matched: nat,
    pub errors: nat,
    pub warnings: nat,
    pub infos: nat,
    pub top_reason: Option<Seq<char>>,
}

pub open spec fn opt_str(o: Option<String>) -> Option<Seq<char>> {
    match o {
        Some(s) => Some(s@),
        None => None,
    }
}

impl View for CellResult {
    type V = CellSpec;

    open spec fn view(&self) -> CellSpec {
        CellSpec {
            screen: self.screen@,
            pa: self.pair.0@,
            pb: self.pair.1@,
            worst: self.worst,
            matched: self.matched as nat,
            errors: self.errors as nat,
            warnings: self.warnings as nat,
            infos: self.infos as nat,
            top_reason: opt_str(self.top_reason),
        }
    }
}

pub open spec fn cells_view(cells: Seq<CellResult>) -> Seq<CellSpec> {
    cells.map_values(|c: CellResult| c@)
}

// ---------------------------------------------------------------------------
// Severity of a cell
// ---------------------------------------------------------------------------

/// A warning that a tolerance already accepted.
pub open spec fn tolerated(w: Seq<char>) -> bool {
    seq_contains(w, "within tolerance"@)
}

/// Index of the first warning that no tolerance accepted.
pub open spec fn first_untolerated(ws: Seq<Seq<char>>) -> Option<int>
    decreases ws.len(),
{
    if ws.len() == 0 {
        None
    } else {
        match first_untolerated(ws.drop_last()) {
            Some(i) => Some(i),
            None => if !tolerated(ws.last()) {
                Some(ws.len() - 1)
            } else {
                None
            },
        }
    }
}

/// Worst severity of a cell: any error; else any warning that no tolerance
/// accepted; else information when anything at all was reported.
pub open spec fn worst_of(errors: Seq<Seq<char>>, warnings: Seq<Seq<char>>, infos: Seq<Seq<char>>) -> Option<Severity> {
    if errors.len() > 0 {
        Some(Severity::Error)
    } else if first_untolerated(warnings) is Some {
        Some(Severity::Warning)
    } else if warnings.len() > 0 || infos.len() > 0 {
        Some(Severity::Info)
    } else {
        None
    }
}

/// The tag of a diagnostic: its text up to the first `:`.
pub open spec fn short_tag(m: Seq<char>) -> Seq<char> {
    match first_index_from(m, ':', 0) {
        Some(i) => m.subrange(0, i),
        None => m,
    }
}

/// The reason a cell shows: the first error, else the first warning that
/// no tolerance accepted, else the first warning, else the first
/// information line, each by its tag.
pub open spec fn top_reason_of(errors: Seq<Seq<char>>, warnings: Seq<Seq<char>>, infos: Seq<Seq<char>>) -> Option<Seq<char>> {
    if errors.len() > 0 {
        Some(short_tag(errors[0]))
    } else {
        match first_untolerated(warnings) {
            Some(i) => Some(short_tag(warnings[i])),
            None => if warnings.len() > 0 {
                Some(short_tag(warnings[0]))
            } else if infos.len() > 0 {
                Some(short_tag(infos[0]))
            } else {
                None
            },
        }
    }
}

/// The three lists of a cell, dropped one notch when `demote` holds.
pub open spec fn cell_lists(
    errors: Seq<Seq<char>>,
    warnings: Seq<Seq<char>>,
    infos: Seq<Seq<char>>,
    demote: bool,
) -> (Seq<Seq<char>>, Seq<Seq<char>>, Seq<Seq<char>>) {
    if demote {
        (Seq::empty(), errors, warnings + infos)
    } else {
        (errors, warnings, infos)
    }
}

/// A pair is demoted when one side is figma and figma is not held strict.
pub open spec fn demoted(pa: Seq<char>, pb: Seq<char>, strict_figma: bool) -> bool {
    (pa == "figma"@ || pb == "figma"@) && !strict_figma
}

pub open spec fn missing_reason(pa: Seq<char>, pb: Seq<char>, a_missing: bool) -> Seq<char> {
    "missing semantic.yaml for "@ + if a_missing {
        pa
    } else {
        pb
    }
}

/// The cell of one screen and platform pair, from the two captures (if
/// they loaded).
#[verifier::opaque]
pub open spec fn cell_spec(
    screen: Seq<char>,
    pa: Seq<char>,
    pb: Seq<char>,
    a: Option<SemanticSchema>,
    b: Option<SemanticSchema>,
    strict_figma: bool,
    table: Seq<ColorDistance>,
) -> CellSpec {
    match (a, b) {
        (Some(x), Some(y)) => {
            let all = all_diags(x, y, None, false, table);
            let lists = cell_lists(
                severity_messages(all, Severity::Error),
                severity_messages(all, Severity::Warning),
                severity_messages(all, Severity::Info),
                demoted(pa, pb, strict_figma),
            );
            CellSpec {
                screen,
                pa,
                pb,
                worst: worst_of(lists.0, lists.1, lists.2),
                matched: matched_state(
                    kept_elements(x.elements@, false),
                    kept_elements(y.elements@, false),
                ).0.len(),
                errors: lists.0.len(),
                warnings: lists.1.len(),
                infos: lists.2.len(),
                top_reason: top_reason_of(lists.0, lists.1, lists.2),
            }
        },
        _ => CellSpec {
            screen,
            pa,
            pb,
            worst: Some(Severity::Error),
            matched: 0,
            errors: 1,
            warnings: 0,
            infos: 0,
            top_reason: Some(missing_reason(pa, pb, a is None)),
        },
    }
}

fn is_tolerated(w: &String) -> (r: bool)
    ensures
        r == tolerated(w@),
{
    let v = chars_of(w.as_str());
    let p = chars_of("within tolerance");
    contains(&v, &p)
}

proof fn lemma_first_untolerated_prefix(ws: Seq<Seq<char>>, n: int)
    requires
        0 <= n <= ws.len(),
        first_untolerated(ws.subrange(0, n)) is Some,
    ensures
        first_untolerated(ws) == first_untolerated(ws.subrange(0, n)),
    decreases ws.len() - n,
{
    if n < ws.len() {
        let p = ws.subrange(0, n + 1);
        assert(p.drop_last() =~= ws.subrange(0, n));
        lemma_first_untolerated_prefix(ws, n + 1);
    } else {
        assert(ws.subrange(0, n) =~= ws);
    }
}

fn find_untolerated(ws: &[String]) -> (r: Option<usize>)
    ensures
        match r {
            Some(i) => first_untolerated(ws.deep_view()) == Some(i as int) && i < ws@.len(),
            None => first_untolerated(ws.deep_view()) is None,
        },
{
    let ghost all = ws.deep_view();
    let mut i: usize = 0;
    while i < ws.len()
        invariant
            i <= ws@.len(),
            all == ws.deep_view(),
            first_untolerated(all.subrange(0, i as int)) is None,
        decreases ws.len() - i,
    {
        proof {
            let p = all.subrange(0, i + 1);
            assert(p.drop_last() =~= all.subrange(0, i as int));
            assert(p.last() == ws@[i as int]@);
        }
        if !is_tolerated(&ws[i]) {
            proof {
                lemma_first_untolerated_prefix(all, i + 1);
            }
            return Some(i);
        }
        i = i + 1;
    }
    assert(all.subrange(0, i as int) =~= all);
    None
}

/// Worst severity of a cell's lists.
pub fn derive_worst(errors: &[String], warnings: &[String], infos: &[String]) -> (r: Option<Severity>)
    ensures
        r == worst_of(errors.deep_view(), warnings.deep_view(), infos.deep_view()),
{
    if errors.len() > 0 {
        Some(Severity::Error)
    } else if find_untolerated(warnings).is_some() {
        Some(Severity::Warning)
    } else if warnings.len() > 0 || infos.len() > 0 {
        Some(Severity::Info)
    } else {
        None
    }
}

proof fn lemma_first_untolerated(ws: Seq<Seq<char>>)
    ensures
        first_untolerated(ws) is None <==> (forall|j: int| 0 <= j < ws.len() ==> tolerated(#[trigger] ws[j])),
        first_untolerated(ws) matches Some(i) ==> 0 <= i < ws.len() && !tolerated(ws[i]) && forall|j: int|
            0 <= j < i ==> tolerated(#[trigger] ws[j]),
    decreases ws.len(),
{
    if ws.len() > 0 {
        let rest = ws.drop_last();
        lemma_first_untolerated(rest);
        assert forall|j: int| 0 <= j < rest.len() implies rest[j] == ws[j] by {}
        if first_untolerated(rest) is None && !tolerated(ws.last()) {
            assert(!tolerated(ws[ws.len() - 1]));
        }
    }
}

/// A cell's worst severity: an error when there is an error; otherwise a
/// warning exactly when some warning is not marked `within tolerance`;
/// otherwise information when there is any warning or information line;
/// otherwise none.
pub proof fn law_worst_severity(errors: Seq<Seq<char>>, warnings: Seq<Seq<char>>, infos: Seq<Seq<char>>)
    ensures
        (worst_of(errors, warnings, infos) == Some(Severity::Error)) <==> errors.len() > 0,
        (worst_of(errors, warnings, infos) == Some(Severity::Warning)) <==> (errors.len() == 0 && exists|j: int|
            0 <= j < warnings.len() && !tolerated(#[trigger] warnings[j])),
        (worst_of(errors, warnings, infos) == Some(Severity::Info)) <==> (errors.len() == 0 && (forall|j: int|
            0 <= j < warnings.len() ==> tolerated(#[trigger] warnings[j])) && (warnings.len() > 0 || infos.len()
            > 0)),
        (worst_of(errors, warnings, infos) is None) <==> (errors.len() == 0 && warnings.len() == 0 && infos.len()
            == 0),
{
    lemma_first_untolerated(warnings);
    if let Some(i) = first_untolerated(warnings) {
        assert(!tolerated(warnings[i]));
    }
}

/// Extracts the diagnostic tag (such as `MISSING` or `WRONG_TEXT`) for
/// compact display.
pub fn short_reason(msg: &str) -> (r: String)
    ensures
        r@ == short_tag(msg@),
{
    let v = chars_of(msg);
    proof {
        lemma_first_index_from_props(v@, ':', 0);
    }
    match find_char_from(&v, ':', 0) {
        Some(i) => {
            let head = subvec(&v, 0, i);
            string_of(&head)
        },
        None => msg.to_owned(),
    }
}

/// The reason a cell shows, by its tag.
pub fn pick_top_reason(errors: &[String], warnings: &[String], infos: &[String]) -> (r: Option<String>)
    ensures
        opt_str(r) == top_reason_of(errors.deep_view(), warnings.deep_view(), infos.deep_view()),
{
    if errors.len() > 0 {
        return Some(short_reason(errors[0].as_str()));
    }
    match find_untolerated(warnings) {
        Some(i) => {
            return Some(short_reason(warnings[i].as_str()));
        },
        None => {},
    }
    if warnings.len() > 0 {
        return Some(short_reason(warnings[0].as_str()));
    }
    if infos.len() > 0 {
        Some(short_reason(infos[0].as_str()))
    } else {
        None
    }
}

fn is_figma(p: &str) -> (r: bool)
    ensures
        r == (p@ == "figma"@),
{
    let v = chars_of(p);
    let f = chars_of("figma");
    crate::text::chars_eq(&v, &f)
}

fn clone_strings(v: &Vec<String>) -> (r: Vec<String>)
    ensures
        r.deep_view() == v.deep_view(),
{
    let mut out: Vec<String> = Vec::new();
    let mut i: usize = 0;
    while i < v.len()
        invariant
            i <= v.len(),
            out@.len() == i,
            forall|k: int| 0 <= k < i ==> (#[trigger] out@[k])@ == v@[k]@,
        decreases v.len() - i,
    {
        let item = v[i].clone();
        out.push(item);
        i = i + 1;
    }
    assert(out.deep_view() =~= v.deep_view());
    out
}

fn concat_strings(a: &Vec<String>, b: &Vec<String>) -> (r: Vec<String>)
    ensures
        r.deep_view() == a.deep_view() + b.deep_view(),
{
    let mut out: Vec<String> = Vec::new();
    let mut i: usize = 0;
    while i < a.len()
        invariant
            i <= a.len(),
            out@.len() == i,
            forall|k: int| 0 <= k < i ==> (#[trigger] out@[k])@ == a@[k]@,
        decreases a.len() - i,
    {
        let item = a[i].clone();
        out.push(item);
        i = i + 1;
    }
    let mut j: usize = 0;
    while j < b.len()
        invariant
            j <= b.len(),
            out@.len() == a@.len() + j,
            forall|k: int| 0 <= k < a@.len() ==> (#[trigger] out@[k])@ == a@[k]@,
            forall|k: int| 0 <= k < j ==> (#[trigger] out@[a@.len() + k])@ == b@[k]@,
        decreases b.len() - j,
    {
        let item = b[j].clone();
        out.push(item);
        j = j + 1;
    }
    assert forall|k: int| 0 <= k < out@.len() implies #[trigger] out.deep_view()[k] == (a.deep_view()
        + b.deep_view())[k] by {
        if k >= a@.len() {
            assert(out@[a@.len() + (k - a@.len())]@ == b@[k - a@.len()]@);
        }
    }
    assert(out.deep_view() =~= a.deep_view() + b.deep_view());
    out
}

/// The cell of one screen and platform pair. A capture that did not load
/// makes the cell an error; otherwise the cell sums up the comparison of
/// the two captures, demoted one notch for a figma pair unless figma is
/// held strict.
pub fn compute_cell(
    screen: &str,
    pa: &str,
    pb: &str,
    a: Option<&SemanticSchema>,
    b: Option<&SemanticSchema>,
    strict_figma: bool,
    table: &Vec<ColorDistance>,
) -> (r: CellResult)
    requires
        (a is Some && b is Some) ==> diff_colors_ok(*a->0, *b->0, false),
    ensures
        r@ == cell_spec(
            screen@,
            pa@,
            pb@,
            match a {
                Some(x) => Some(*x),
                None => None,
            },
            match b {
                Some(x) => Some(*x),
                None => None,
            },
            strict_figma,
            table@,
        ),
{
    proof {
        reveal(cell_spec);
    }
    let pair = (pa.to_owned(), pb.to_owned());
    let (x, y) = match (a, b) {
        (Some(x), Some(y)) => (x, y),
        _ => {
            let mut m: Vec<char> = chars_of("missing semantic.yaml for ");
            if a.is_none() {
                append_str(&mut m, pa);
            } else {
                append_str(&mut m, pb);
            }
            return CellResult {
                screen: screen.to_owned(),
                pair,
                worst: Some(Severity::Error),
                matched: 0,
                errors: 1,
                warnings: 0,
                infos: 0,
                top_reason: Some(string_of(&m)),
            };
        },
    };
    let report = diff_schemas(x, y, &None, false, table);
    let demote = (is_figma(pa) || is_figma(pb)) && !strict_figma;
    let (errors, warnings, infos) = if demote {
        (Vec::<String>::new(), clone_strings(&report.errors), concat_strings(&report.warnings, &report.infos))
    } else {
        (clone_strings(&report.errors), clone_strings(&report.warnings), clone_strings(&report.infos))
    };
    proof {
        if demote {
            assert(errors.deep_view() =~= Seq::<Seq<char>>::empty());
        }
    }
    let worst = derive_worst(errors.as_slice(), warnings.as_slice(), infos.as_slice());
    let top_reason = pick_top_reason(errors.as_slice(), warnings.as_slice(), infos.as_slice());
    CellResult {
        screen: screen.to_owned(),
        pair,
        worst,
        matched: report.matched,
        errors: errors.len(),
        warnings: warnings.len(),
        infos: infos.len(),
        top_reason,
    }
}

// ---------------------------------------------------------------------------
// The matrix
// ---------------------------------------------------------------------------

/// The cells of screen row `row` for the pairs `(i, j)` with `i < j < j_end`.
pub open spec fn pair_cells(
    screen: Seq<char>,
    platforms: Seq<Seq<char>>,
    row: Seq<Option<SemanticSchema>>,
    i: int,
    j_end: int,
    strict_figma: bool,
    table: Seq<ColorDistance>,
) -> Seq<CellSpec>
    decreases j_end - i,
{
    if j_end <= i + 1 {
        Seq::empty()
    } else {
        pair_cells(screen, platforms, row, i, j_end - 1, strict_figma, table).push(
            cell_spec(screen, platforms[i], platforms[j_end - 1], row[i], row[j_end - 1], strict_figma, table),
        )
    }
}

/// The cells of one screen for every pair whose first platform comes
/// before `i_end`, in platform order.
pub open spec fn row_cells(
    screen: Seq<char>,
    platforms: Seq<Seq<char>>,
    row: Seq<Option<SemanticSchema>>,
    i_end: int,
    strict_figma: bool,
    table: Seq<ColorDistance>,
) -> Seq<CellSpec>
    decreases i_end,
{
    if i_end <= 0 {
        Seq::empty()
    } else {
        row_cells(screen, platforms, row, i_end - 1, strict_figma, table) + pair_cells(
            screen,
            platforms,
            row,
            i_end - 1,
            platforms.len() as int,
            strict_figma,
            table,
        )
    }
}

/// The cells of the first `s_end` screens: for each screen, every pair
/// `(platforms[i], platforms[j])` with `i < j`.
pub open spec fn matrix_cells(
    screens: Seq<Seq<char>>,
    platforms: Seq<Seq<char>>,
    loaded: Seq<Seq<Option<SemanticSchema>>>,
    s_end: int,
    strict_figma: bool,
    table: Seq<ColorDistance>,
) -> Seq<CellSpec>
    decreases s_end,
{
    if s_end <= 0 {
        Seq::empty()
    } else {
        matrix_cells(screens, platforms, loaded, s_end - 1, strict_figma, table) + row_cells(
            screens[s_end - 1],
            platforms,
            loaded[s_end - 1],
            platforms.len() as int,
            strict_figma,
            table,
        )
    }
}

pub open spec fn loaded_view(loaded: Seq<Vec<Option<SemanticSchema>>>) -> Seq<Seq<Option<SemanticSchema>>> {
    loaded.map_values(|r: Vec<Option<SemanticSchema>>| r@)
}

/// The captures of one screen: one entry per platform, every pair of
/// loaded captures comparable.
pub open spec fn row_ok(n: int, row: Seq<Option<SemanticSchema>>) -> bool {
    &&& row.len() == n
    &&& forall|i: int, j: int|
        0 <= i < j < n && row[i] is Some && row[j] is Some ==> diff_colors_ok(
            #[trigger] row[i]->0,
            #[trigger] row[j]->0,
            false,
        )
}

/// The captures of a matrix: one row per screen, each well formed.
pub open spec fn matrix_ok(
    platforms: Seq<Seq<char>>,
    screens: Seq<Seq<char>>,
    loaded: Seq<Seq<Option<SemanticSchema>>>,
) -> bool {
    &&& loaded.len() == screens.len()
    &&& forall|s: int| 0 <= s < loaded.len() ==> row_ok(platforms.len() as int, #[trigger] loaded[s])
}

fn push_pair_cells(
    cells: &mut Vec<CellResult>,
    screen: &String,
    platforms: &Vec<String>,
    row: &Vec<Option<SemanticSchema>>,
    i: usize,
    strict_figma: bool,
    table: &Vec<ColorDistance>,
)
    requires
        i < platforms@.len(),
        row_ok(platforms@.len() as int, row@),
    ensures
        cells_view(final(cells)@) == cells_view(old(cells)@) + pair_cells(
            screen@,
            platforms.deep_view(),
            row@,
            i as int,
            platforms@.len() as int,
            strict_figma,
            table@,
        ),
{
    let ghost P = platforms.deep_view();
    let ghost start = cells_view(cells@);
    let n = platforms.len();
    let mut j: usize = i + 1;
    while j < n
        invariant
            i < platforms@.len(),
            i + 1 <= j <= platforms@.len(),
            n == platforms@.len(),
            P == platforms.deep_view(),
            row_ok(platforms@.len() as int, row@),
            cells_view(cells@) == start + pair_cells(screen@, P, row@, i as int, j as int, strict_figma, table@),
        decreases platforms@.len() - j,
    {
        proof {
            if row@[i as int] is Some && row@[j as int] is Some {
                assert(diff_colors_ok(row@[i as int]->0, row@[j as int]->0, false));
            }
        }
        let cell = compute_cell(
            screen.as_str(),
            platforms[i].as_str(),
            platforms[j].as_str(),
            row[i].as_ref(),
            row[j].as_ref(),
            strict_figma,
            table,
        );
        let ghost prev = cells@;
        cells.push(cell);
        proof {
            assert(cells_view(cells@) =~= cells_view(prev).push(cell@));
            assert(P[i as int] == platforms@[i as int]@);
            assert(P[j as int] == platforms@[j as int]@);
        }
        j = j + 1;
    }
}

fn push_row_cells(
    cells: &mut Vec<CellResult>,
    screen: &String,
    platforms: &Vec<String>,
    row: &Vec<Option<SemanticSchema>>,
    strict_figma: bool,
    table: &Vec<ColorDistance>,
)
    requires
        row_ok(platforms@.len() as int, row@),
    ensures
        cells_view(final(cells)@) == cells_view(old(cells)@) + row_cells(
            screen@,
            platforms.deep_view(),
            row@,
            platforms@.len() as int,
            strict_figma,
            table@,
        ),
{
    let ghost P = platforms.deep_view();
    let ghost start = cells_view(cells@);
    let mut i: usize = 0;
    while i < platforms.len()
        invariant
            i <= platforms@.len(),
            P == platforms.deep_view(),
            row_ok(platforms@.len() as int, row@),
            cells_view(cells@) == start + row_cells(screen@, P, row@, i as int, strict_figma, table@),
        decreases platforms@.len() - i,
    {
        push_pair_cells(cells, screen, platforms, row, i, strict_figma, table);
        i = i + 1;
        proof {
            assert(cells_view(cells@) =~= start + row_cells(screen@, P, row@, i as int, strict_figma, table@));
        }
    }
}

/// Every cell of the matrix: per screen, every platform pair `(i, j)` with
/// `i < j`, from the captures loaded for that screen (`loaded[s][p]` is the
/// capture of `screens[s]` on `platforms[p]`, `None` where it did not load).
pub fn compute_matrix(
    platforms: &Vec<String>,
    screens: &Vec<String>,
    loaded: &Vec<Vec<Option<SemanticSchema>>>,
    strict_figma: bool,
    table: &Vec<ColorDistance>,
) -> (r: Vec<CellResult>)
    requires
        matrix_ok(platforms.deep_view(), screens.deep_view(), loaded_view(loaded@)),
    ensures
        cells_view(r@) == matrix_cells(
            screens.deep_view(),
            platforms.deep_view(),
            loaded_view(loaded@),
            screens@.len() as int,
            strict_figma,
            table@,
        ),
{
    let ghost P = platforms.deep_view();
    let ghost S = screens.deep_view();
    let ghost L = loaded_view(loaded@);
    let mut cells: Vec<CellResult> = Vec::new();
    let mut s: usize = 0;
    while s < screens.len()
        invariant
            s <= screens@.len(),
            P == platforms.deep_view(),
            S == screens.deep_view(),
            L == loaded_view(loaded@),
            matrix_ok(P, S, L),
            cells_view(cells@) == matrix_cells(S, P, L, s as int, strict_figma, table@),
        decreases screens@.len() - s,
    {
        proof {
            assert(loaded@[s as int]@ == L[s as int]);
            assert(row_ok(P.len() as int, L[s as int]));
            assert(S[s as int] == screens@[s as int]@);
        }
        push_row_cells(&mut cells, &screens[s], platforms, &loaded[s], strict_figma, table);
        s = s + 1;
        proof {
            assert(cells_view(cells@) =~= matrix_cells(S, P, L, s as int, strict_figma, table@));
        }
    }
    cells
}

// ---------------------------------------------------------------------------
// Summary and exit code
// ---------------------------------------------------------------------------

/// `tag(inner)`.
pub open spec fn tagged_str(tag: Seq<char>, inner: Seq<char>) -> Seq<char> {
    tag + "("@ + inner + ")"@
}

/// How a cell shows in the grid.
pub open spec fn symbol_of(c: CellSpec) -> Seq<char> {
    match c.worst {
        None => "PASS"@,
        Some(Severity::Info) => tagged_str("INFO"@, nat_str(c.infos)),
        Some(Severity::Warning) => match c.top_reason {
            Some(r) => tagged_str("WARN"@, r),
            None => tagged_str("WARN"@, nat_str(c.warnings)),
        },
        Some(Severity::Error) => match c.top_reason {
            Some(r) => tagged_str("ERROR"@, r),
            None => tagged_str("ERROR"@, nat_str(c.errors)),
        },
    }
}

fn tagged(tag: &str, inner: &Vec<char>) -> (r: String)
    ensures
        r@ == tagged_str(tag@, inner@),
{
    let mut m = chars_of(tag);
    append_str(&mut m, "(");
    append_chars(&mut m, inner);
    append_str(&mut m, ")");
    string_of(&m)
}

/// How a cell shows in the grid: `PASS`, or its severity with its reason
/// (or its count).
pub fn cell_symbol(c: &CellResult) -> (r: String)
    ensures
        r@ == symbol_of(c@),
{
    match c.worst {
        None => "PASS".to_owned(),
        Some(Severity::Info) => tagged("INFO", &fmt_nat(c.infos as u128)),
        Some(Severity::Warning) => match &c.top_reason {
            Some(r) => tagged("WARN", &chars_of(r.as_str())),
            None => tagged("WARN", &fmt_nat(c.warnings as u128)),
        },
        Some(Severity::Error) => match &c.top_reason {
            Some(r) => tagged("ERROR", &chars_of(r.as_str())),
            None => tagged("ERROR", &fmt_nat(c.errors as u128)),
        },
    }
}

/// How many cells of each worst severity a matrix has.
pub struct Totals {
    pub pass: usize,
    pub info: usize,
    pub warn: usize,
    pub error: usize,
}

/// The number of cells whose worst severity is `w`.
pub open spec fn count_worst(cells: Seq<CellSpec>, w: Option<Severity>) -> nat
    decreases cells.len(),
{
    if cells.len() == 0 {
        0
    } else {
        count_worst(cells.drop_last(), w) + if cells.last().worst == w {
            1nat
        } else {
            0nat
        }
    }
}

pub proof fn lemma_count_worst(cells: Seq<CellSpec>, w: Option<Severity>)
    ensures
        count_worst(cells, w) <= cells.len(),
        count_worst(cells, w) > 0 <==> exists|i: int| 0 <= i < cells.len() && (#[trigger] cells[i]).worst == w,
    decreases cells.len(),
{
    if cells.len() > 0 {
        let rest = cells.drop_last();
        lemma_count_worst(rest, w);
        if count_worst(rest, w) > 0 {
            let i = choose|i: int| 0 <= i < rest.len() && (#[trigger] rest[i]).worst == w;
            assert(cells[i] == rest[i]);
        }
        if cells.last().worst == w {
            assert(cells[cells.len() - 1].worst == w);
        }
        if exists|i: int| 0 <= i < cells.len() && (#[trigger] cells[i]).worst == w {
            let i = choose|i: int| 0 <= i < cells.len() && (#[trigger] cells[i]).worst == w;
            if i < cells.len() - 1 {
                assert(rest[i] == cells[i]);
            }
        }
    }
}

/// Counts the cells of each worst severity.
pub fn summarize(cells: &[CellResult]) -> (r: Totals)
    ensures
        r.pass == count_worst(cells_view(cells@), None),
        r.info == count_worst(cells_view(cells@), Some(Severity::Info)),
        r.warn == count_worst(cells_view(cells@), Some(Severity::Warning)),
        r.error == count_worst(cells_view(cells@), Some(Severity::Error)),
{
    let ghost all = cells_view(cells@);
    let mut t = Totals { pass: 0, info: 0, warn: 0, error: 0 };
    let mut i: usize = 0;
    while i < cells.len()
        invariant
            i <= cells@.len(),
            all == cells_view(cells@),
            t.pass == count_worst(all.subrange(0, i as int), None),
            t.info == count_worst(all.subrange(0, i as int), Some(Severity::Info)),
            t.warn == count_worst(all.subrange(0, i as int), Some(Severity::Warning)),
            t.error == count_worst(all.subrange(0, i as int), Some(Severity::Error)),
        decreases cells@.len() - i,
    {
        let ghost p = all.subrange(0, i + 1);
        proof {
            assert(p.drop_last() =~= all.subrange(0, i as int));
            assert(p.last() == cells@[i as int]@);
            lemma_count_worst(p, None);
            lemma_count_worst(p, Some(Severity::Info));
            lemma_count_worst(p, Some(Severity::Warning));
            lemma_count_worst(p, Some(Severity::Error));
        }
        match cells[i].worst {
            None => t.pass = t.pass + 1,
            Some(Severity::Info) => t.info = t.info + 1,
            Some(Severity::Warning) => t.warn = t.warn + 1,
            Some(Severity::Error) => t.error = t.error + 1,
        }
        i = i + 1;
    }
    assert(all.subrange(0, i as int) =~= all);
    t
}

/// The exit code of a matrix under an exit mode.
pub open spec fn exit_code(cells: Seq<CellSpec>, mode: ExitMode) -> int {
    match mode {
        ExitMode::ReportOnly => 0,
        ExitMode::ErrorOnly => if count_worst(cells, Some(Severity::Error)) > 0 {
            1
        } else {
            0
        },
        ExitMode::Strict => if count_worst(cells, Some(Severity::Error)) > 0 || count_worst(
            cells,
            Some(Severity::Warning),
        ) > 0 || count_worst(cells, Some(Severity::Info)) > 0 {
            1
        } else {
            0
        },
    }
}

/// The exit code: `report-only` never fails, `error-only` fails on an
/// error cell, `strict` on any cell that is not a pass.
pub fn exit_code_for(cells: &[CellResult], mode: ExitMode) -> (r: i32)
    ensures
        r == exit_code(cells_view(cells@), mode),
{
    let totals = summarize(cells);
    match mode {
        ExitMode::ReportOnly => 0,
        ExitMode::ErrorOnly => if totals.error > 0 {
            1
        } else {
            0
        },
        ExitMode::Strict => {
            if totals.error > 0 || totals.warn > 0 || totals.info > 0 {
                1
            } else {
                0
            }
        },
    }
}

// ---------------------------------------------------------------------------
// Laws
// ---------------------------------------------------------------------------

/// A pair whose capture did not load on either side is an error cell with
/// one error and the name of the missing platform (the first one, when
/// both are missing) as its reason.
pub proof fn law_missing_capture_is_error(
    screen: Seq<char>,
    pa: Seq<char>,
    pb: Seq<char>,
    a: Option<SemanticSchema>,
    b: Option<SemanticSchema>,
    strict_figma: bool,
    table: Seq<ColorDistance>,
)
    requires
        a is None || b is None,
    ensures
        ({
            let c = cell_spec(screen, pa, pb, a, b, strict_figma, table);
            &&& c.worst == Some(Severity::Error)
            &&& c.errors == 1 && c.warnings == 0 && c.infos == 0 && c.matched == 0
            &&& c.top_reason == Some("missing semantic.yaml for "@ + if a is None { pa } else { pb })
        }),
{
    reveal(cell_spec);
}

/// On a figma pair (unless figma is held strict) every severity drops one
/// notch: the cell has no error, its warnings are the comparison's errors
/// and its information lines the comparison's warnings and information
/// lines, so that nothing is lost and the cell is never an error. Any other
/// pair keeps the comparison's counts.
pub proof fn law_figma_demotion(
    screen: Seq<char>,
    pa: Seq<char>,
    pb: Seq<char>,
    a: SemanticSchema,
    b: SemanticSchema,
    strict_figma: bool,
    table: Seq<ColorDistance>,
)
    ensures
        ({
            let c = cell_spec(screen, pa, pb, Some(a), Some(b), strict_figma, table);
            let all = all_diags(a, b, None, false, table);
            let e = severity_messages(all, Severity::Error).len();
            let w = severity_messages(all, Severity::Warning).len();
            let i = severity_messages(all, Severity::Info).len();
            &&& (pa == "figma"@ || pb == "figma"@) && !strict_figma ==> {
                &&& c.errors == 0
                &&& c.warnings == e
                &&& c.infos == w + i
                &&& c.worst != Some(Severity::Error)
                &&& (e + w + i > 0 <==> c.worst is Some)
            }
            &&& !((pa == "figma"@ || pb == "figma"@) && !strict_figma) ==> {
                &&& c.errors == e
                &&& c.warnings == w
                &&& c.infos == i
                &&& (c.worst == Some(Severity::Error) <==> e > 0)
            }
        }),
{
    reveal(cell_spec);
}

/// `report-only` always exits 0; `error-only` exits 1 exactly when some
/// cell is an error; `strict` exits 1 exactly when some cell is not a pass.
/// So a stricter mode never exits 0 where a looser one fails.
pub proof fn law_exit_codes(cells: Seq<CellSpec>)
    ensures
        exit_code(cells, ExitMode::ReportOnly) == 0,
        exit_code(cells, ExitMode::ErrorOnly) == 1 <==> exists|k: int|
            0 <= k < cells.len() && (#[trigger] cells[k]).worst == Some(Severity::Error),
        exit_code(cells, ExitMode::ErrorOnly) == 0 || exit_code(cells, ExitMode::ErrorOnly) == 1,
        exit_code(cells, ExitMode::Strict) == 1 <==> exists|k: int|
            0 <= k < cells.len() && (#[trigger] cells[k]).worst is Some,
        exit_code(cells, ExitMode::Strict) == 0 || exit_code(cells, ExitMode::Strict) == 1,
        exit_code(cells, ExitMode::ReportOnly) <= exit_code(cells, ExitMode::ErrorOnly) <= exit_code(
            cells,
            ExitMode::Strict,
        ),
{
    lemma_count_worst(cells, Some(Severity::Error));
    lemma_count_worst(cells, Some(Severity::Warning));
    lemma_count_worst(cells, Some(Severity::Info));
    if exists|k: int| 0 <= k < cells.len() && (#[trigger] cells[k]).worst is Some {
        let k = choose|k: int| 0 <= k < cells.len() && (#[trigger] cells[k]).worst is Some;
        match cells[k].worst {
            Some(Severity::Error) => {},
            Some(Severity::Warning) => {},
            Some(Severity::Info) => {},
            None => {},
        }
    }
}

proof fn lemma_pair_cells_len(
    screen: Seq<char>,
    platforms: Seq<Seq<char>>,
    row: Seq<Option<SemanticSchema>>,
    i: int,
    j_end: int,
    strict_figma: bool,
    table: Seq<ColorDistance>,
)
    requires
        i + 1 <= j_end,
    ensures
        pair_cells(screen, platforms, row, i, j_end, strict_figma, table).len() == j_end - i - 1,
    decreases j_end - i,
{
    if j_end > i + 1 {
        lemma_pair_cells_len(screen, platforms, row, i, j_end - 1, strict_figma, table);
    }
}

proof fn lemma_row_cells_len(
    screen: Seq<char>,
    platforms: Seq<Seq<char>>,
    row: Seq<Option<SemanticSchema>>,
    i_end: int,
    strict_figma: bool,
    table: Seq<ColorDistance>,
)
    requires
        0 <= i_end <= platforms.len(),
    ensures
        2 * row_cells(screen, platforms, row, i_end, strict_figma, table).len() == i_end * (2
            * platforms.len() - i_end - 1),
    decreases i_end,
{
    if i_end > 0 {
        lemma_row_cells_len(screen, platforms, row, i_end - 1, strict_figma, table);
        lemma_pair_cells_len(screen, platforms, row, i_end - 1, platforms.len() as int, strict_figma, table);
        let n = platforms.len() as int;
        let prev = row_cells(screen, platforms, row, i_end - 1, strict_figma, table);
        let last = pair_cells(screen, platforms, row, i_end - 1, n, strict_figma, table);
        assert(row_cells(screen, platforms, row, i_end, strict_figma, table) == prev + last);
        assert(last.len() == n - i_end);
        let k = i_end;
        let a = prev.len() as int;
        let b = last.len() as int;
        assert(2 * (a + b) == k * (2 * n - k - 1)) by (nonlinear_arith)
            requires
                2 * a == (k - 1) * (2 * n - (k - 1) - 1),
                b == n - k,
        ;
    } else {
        let n = platforms.len() as int;
        assert(i_end * (2 * n - i_end - 1) == 0) by (nonlinear_arith)
            requires
                i_end == 0,
        ;
    }
}

/// The matrix has one cell per screen and unordered pair of distinct
/// platforms: `screens × n·(n−1)/2` cells for `n` platforms.
pub proof fn law_matrix_size(
    screens: Seq<Seq<char>>,
    platforms: Seq<Seq<char>>,
    loaded: Seq<Seq<Option<SemanticSchema>>>,
    strict_figma: bool,
    table: Seq<ColorDistance>,
)
    ensures
        2 * matrix_cells(screens, platforms, loaded, screens.len() as int, strict_figma, table).len()
            == screens.len() * (platforms.len() * (platforms.len() - 1)),
{
    lemma_matrix_size(screens, platforms, loaded, screens.len() as int, strict_figma, table);
}

proof fn lemma_matrix_size(
    screens: Seq<Seq<char>>,
    platforms: Seq<Seq<char>>,
    loaded: Seq<Seq<Option<SemanticSchema>>>,
    s_end: int,
    strict_figma: bool,
    table: Seq<ColorDistance>,
)
    requires
        0 <= s_end,
    ensures
        2 * matrix_cells(screens, platforms, loaded, s_end, strict_figma, table).len() == s_end * (
        platforms.len() * (platforms.len() - 1)),
    decreases s_end,
{
    if s_end > 0 {
        lemma_matrix_size(screens, platforms, loaded, s_end - 1, strict_figma, table);
        let n = platforms.len() as int;
        lemma_row_cells_len(screens[s_end - 1], platforms, loaded[s_end - 1], n, strict_figma, table);
        let prev = matrix_cells(screens, platforms, loaded, s_end - 1, strict_figma, table);
        let row = row_cells(screens[s_end - 1], platforms, loaded[s_end - 1], n, strict_figma, table);
        assert(matrix_cells(screens, platforms, loaded, s_end, strict_figma, table) == prev + row);
        assert(2 * row.len() == n * (2 * n - n - 1));
        let k = s_end;
        let a = prev.len() as int;
        let b = row.len() as int;
        assert(2 * (a + b) == k * (n * (n - 1))) by (nonlinear_arith)
            requires
                2 * a == (k - 1) * (n * (n - 1)),
                2 * b == n * (2 * n - n - 1),
        ;
    } else {
        let n = platforms.len() as int;
        assert(s_end * (n * (n - 1)) == 0) by (nonlinear_arith)
            requires
                s_end == 0,
        ;
    }
}

// ---------------------------------------------------------------------------
// The grid
// ---------------------------------------------------------------------------

/// The platform pair of a cell.
pub open spec fn pair_key(c: CellSpec) -> (Seq<char>, Seq<char>) {
    (c.pa, c.pb)
}

/// Pairs in byte order: by the first platform, then by the second.
pub open spec fn pair_lt(a: (Seq<char>, Seq<char>), b: (Seq<char>, Seq<char>)) -> bool {
    name_lt(a.0, b.0) || (a.0 == b.0 && name_lt(a.1, b.1))
}

pub proof fn lemma_pair_lt_transitive(a: (Seq<char>, Seq<char>), b: (Seq<char>, Seq<char>), c: (Seq<char>, Seq<char>))
    requires
        pair_lt(a, b),
        pair_lt(b, c),
    ensures
        pair_lt(a, c),
{
    if name_lt(a.0, b.0) && name_lt(b.0, c.0) {
        lemma_name_lt_transitive(a.0, b.0, c.0);
    } else if a.0 == b.0 && b.0 == c.0 {
        lemma_name_lt_transitive(a.1, b.1, c.1);
    }
}

pub proof fn lemma_pair_lt_total(a: (Seq<char>, Seq<char>), b: (Seq<char>, Seq<char>))
    ensures
        a == b || pair_lt(a, b) || pair_lt(b, a),
{
    lemma_name_lt_total(a.0, b.0);
    lemma_name_lt_total(a.1, b.1);
}

/// Cell `i` comes before cell `j` in a grid row: an earlier pair, or the
/// same pair and an earlier position.
pub open spec fn row_before(cells: Seq<CellSpec>, i: int, j: int) -> bool {
    pair_lt(pair_key(cells[i]), pair_key(cells[j])) || (pair_key(cells[i]) == pair_key(cells[j]) && i < j)
}

fn pair_less(a: &CellResult, b: &CellResult) -> (r: bool)
    ensures
        r == pair_lt(pair_key(a@), pair_key(b@)),
{
    if name_less(a.pair.0.as_str(), b.pair.0.as_str()) {
        true
    } else if str_eq(a.pair.0.as_str(), b.pair.0.as_str()) {
        name_less(a.pair.1.as_str(), b.pair.1.as_str())
    } else {
        false
    }
}

/// The cells of one screen as its grid row shows them: every cell of that
/// screen once, ordered by platform pair, cells of the same pair in their
/// original order.
pub fn screen_row(cells: &[CellResult], screen: &str) -> (r: Vec<usize>)
    ensures
        forall|k: int| 0 <= k < r@.len() ==> #[trigger] r@[k] < cells@.len() && cells@[r@[k] as int]@.screen == screen@,
        forall|i: usize| i < cells@.len() && cells@[i as int]@.screen == screen@ ==> #[trigger] r@.contains(i),
        forall|a: int, b: int|
            0 <= a < b < r@.len() ==> row_before(cells_view(cells@), #[trigger] r@[a] as int, #[trigger] r@[b] as int),
{
    let ghost cv = cells_view(cells@);
    let mut out: Vec<usize> = Vec::new();
    let mut n: usize = 0;
    while n < cells.len()
        invariant
            n <= cells@.len(),
            cv == cells_view(cells@),
            forall|k: int| 0 <= k < out@.len() ==> #[trigger] out@[k] < n && cells@[out@[k] as int]@.screen == screen@,
            forall|i: usize| i < n && cells@[i as int]@.screen == screen@ ==> #[trigger] out@.contains(i),
            forall|a: int, b: int| 0 <= a < b < out@.len() ==> row_before(cv, #[trigger] out@[a] as int, #[trigger] out@[b] as int),
        decreases cells@.len() - n,
    {
        if str_eq(cells[n].screen.as_str(), screen) {
            let mut p: usize = 0;
            while p < out.len() && !pair_less(&cells[n], &cells[out[p]])
                invariant
                    n < cells@.len(),
                    cv == cells_view(cells@),
                    p <= out@.len(),
                    forall|k: int| 0 <= k < out@.len() ==> #[trigger] out@[k] < n,
                    forall|k: int| 0 <= k < p ==> !pair_lt(pair_key(cv[n as int]), pair_key(#[trigger] cv[out@[k] as int])),
                decreases out@.len() - p,
            {
                p = p + 1;
            }
            let ghost before = out@;
            let ghost kn = pair_key(cv[n as int]);
            proof {
                assert forall|k: int| p <= k < before.len() implies pair_lt(kn, pair_key(#[trigger] cv[before[k] as int])) by {
                    let k0 = pair_key(cv[before[p as int] as int]);
                    assert(pair_lt(kn, k0));
                    if k > p {
                        assert(row_before(cv, before[p as int] as int, before[k] as int));
                        if pair_lt(k0, pair_key(cv[before[k] as int])) {
                            lemma_pair_lt_transitive(kn, k0, pair_key(cv[before[k] as int]));
                        }
                    }
                }
                assert forall|k: int| 0 <= k < p implies row_before(cv, #[trigger] before[k] as int, n as int) by {
                    lemma_pair_lt_total(kn, pair_key(cv[before[k] as int]));
                }
            }
            out.insert(p, n);
            proof {
                assert forall|i: usize| i <= n && cells@[i as int]@.screen == screen@ implies #[trigger] out@.contains(i) by {
                    if i == n {
                        assert(out@[p as int] == n);
                    } else {
                        assert(before.contains(i));
                        let w = choose|w: int| 0 <= w < before.len() && before[w] == i;
                        if w < p {
                            assert(out@[w] == i);
                        } else {
                            assert(out@[w + 1] == i);
                        }
                    }
                }
                assert forall|a: int, b: int| 0 <= a < b < out@.len() implies row_before(
                    cv,
                    #[trigger] out@[a] as int,
                    #[trigger] out@[b] as int,
                ) by {
                    if b < p {
                        assert(out@[a] == before[a] && out@[b] == before[b]);
                    } else if b == p {
                        assert(out@[a] == before[a]);
                    } else if a < p {
                        assert(out@[a] == before[a] && out@[b] == before[b - 1]);
                    } else if a == p {
                        assert(out@[b] == before[b - 1]);
                    } else {
                        assert(out@[a] == before[a - 1] && out@[b] == before[b - 1]);
                    }
                }
            }
        }
        n = n + 1;
    }
    out
}

/// `s` padded with spaces on the right to `w` characters.
pub open spec fn pad_right(s: Seq<char>, w: nat) -> Seq<char> {
    if s.len() >= w {
        s
    } else {
        s + Seq::new((w - s.len()) as nat, |i: int| ' ')
    }
}

/// The entries of a grid row: for each cell, two spaces, its pair joined by
/// a dash, a colon and its symbol.
pub open spec fn row_entries(cells: Seq<CellSpec>, row: Seq<usize>) -> Seq<char>
    decreases row.len(),
{
    if row.len() == 0 {
        Seq::empty()
    } else {
        let c = cells[row.last() as int];
        row_entries(cells, row.drop_last()) + "  "@ + c.pa + "-"@ + c.pb + ": "@ + symbol_of(c)
    }
}

/// One line of the grid.
pub open spec fn grid_line_text(screen: Seq<char>, cells: Seq<CellSpec>, row: Seq<usize>) -> Seq<char> {
    "screen="@ + pad_right(screen, 20) + row_entries(cells, row)
}

/// The grid line of a screen, for its row of cells.
pub fn grid_line(screen: &str, cells: &[CellResult], row: &Vec<usize>) -> (r: String)
    requires
        forall|k: int| 0 <= k < row@.len() ==> #[trigger] row@[k] < cells@.len(),
    ensures
        r@ == grid_line_text(screen@, cells_view(cells@), row@),
{
    let ghost cv = cells_view(cells@);
    let mut m = chars_of("screen=");
    let sc = chars_of(screen);
    append_chars(&mut m, &sc);
    let mut pad: usize = sc.len();
    let ghost head = m@;
    while pad < 20
        invariant
            sc@ == screen@,
            sc@.len() <= pad <= 20 || (pad == sc@.len() && pad > 20),
            m@ == head + Seq::new((pad - sc@.len()) as nat, |i: int| ' '),
        decreases 20 - pad,
    {
        m.push(' ');
        pad = pad + 1;
        proof {
            assert(m@ =~= head + Seq::new((pad - sc@.len()) as nat, |i: int| ' '));
        }
    }
    proof {
        assert(m@ =~= "screen="@ + pad_right(screen@, 20));
    }
    let mut k: usize = 0;
    while k < row.len()
        invariant
            k <= row@.len(),
            cv == cells_view(cells@),
            forall|q: int| 0 <= q < row@.len() ==> #[trigger] row@[q] < cells@.len(),
            m@ == "screen="@ + pad_right(screen@, 20) + row_entries(cv, row@.subrange(0, k as int)),
        decreases row@.len() - k,
    {
        let c = &cells[row[k]];
        append_str(&mut m, "  ");
        append_str(&mut m, c.pair.0.as_str());
        append_str(&mut m, "-");
        append_str(&mut m, c.pair.1.as_str());
        append_str(&mut m, ": ");
        let sym = cell_symbol(c);
        append_str(&mut m, sym.as_str());
        proof {
            let s1 = row@.subrange(0, k + 1);
            assert(s1.drop_last() =~= row@.subrange(0, k as int));
            assert(cv[row@[k as int] as int] == c@);
        }
        k = k + 1;
    }
    assert(row@.subrange(0, k as int) =~= row@);
    string_of(&m)
}

/// The first line of the grid.
pub open spec fn grid_header_text(n_screens: nat, n_platforms: nat) -> Seq<char> {
    "element-matrix \u{2014} "@ + nat_str(n_screens) + " screens \u{d7} "@ + nat_str(n_platforms) + " platforms"@
}

/// The first line of the grid: how many screens and platforms it spans.
pub fn grid_header(n_screens: usize, n_platforms: usize) -> (r: String)
    ensures
        r@ == grid_header_text(n_screens as nat, n_platforms as nat),
{
    let mut m = chars_of("element-matrix \u{2014} ");
    append_chars(&mut m, &fmt_nat(n_screens as u128));
    append_str(&mut m, " screens \u{d7} ");
    append_chars(&mut m, &fmt_nat(n_platforms as u128));
    append_str(&mut m, " platforms");
    string_of(&m)
}

/// The last line of the grid: the cells of each worst severity and the
/// number of cells.
pub open spec fn summary_text(cells: Seq<CellSpec>) -> Seq<char> {
    "SUMMARY: "@ + nat_str(count_worst(cells, None)) + " pass, "@ + nat_str(count_worst(cells, Some(Severity::Info)))
        + " info, "@ + nat_str(count_worst(cells, Some(Severity::Warning))) + " warn, "@ + nat_str(
        count_worst(cells, Some(Severity::Error)),
    ) + " error  ("@ + nat_str(cells.len()) + " cells total)"@
}

/// The summary line of the grid.
pub fn summary_line(cells: &[CellResult]) -> (r: String)
    ensures
        r@ == summary_text(cells_view(cells@)),
{
    let t = summarize(cells);
    let mut m = chars_of("SUMMARY: ");
    append_chars(&mut m, &fmt_nat(t.pass as u128));
    append_str(&mut m, " pass, ");
    append_chars(&mut m, &fmt_nat(t.info as u128));
    append_str(&mut m, " info, ");
    append_chars(&mut m, &fmt_nat(t.warn as u128));
    append_str(&mut m, " warn, ");
    append_chars(&mut m, &fmt_nat(t.error as u128));
    append_str(&mut m, " error  (");
    append_chars(&mut m, &fmt_nat(cells.len() as u128));
    append_str(&mut m, " cells total)");
    string_of(&m)
}

/// How the report names a worst severity.
pub open spec fn worst_name(w: Option<Severity>) -> Seq<char> {
    match w {
        None => "pass"@,
        Some(Severity::Info) => "info"@,
        Some(Severity::Warning) => "warn"@,
        Some(Severity::Error) => "error"@,
    }
}

/// How the report names a worst severity.
pub fn worst_label(w: Option<Severity>) -> (r: String)
    ensures
        r@ == worst_name(w),
{
    match w {
        None => "pass".to_owned(),
        Some(Severity::Info) => "info".to_owned(),
        Some(Severity::Warning) => "warn".to_owned(),
        Some(Severity::Error) => "error".to_owned(),
    }
}

// ---------------------------------------------------------------------------
// Entry points that test the colours first
// ---------------------------------------------------------------------------

/// The cell of one screen and platform pair, or nothing when both captures
/// loaded and a colour of one of their matched pairs cannot be normalised.
pub fn compute_cell_checked(
    screen: &str,
    pa: &str,
    pb: &str,
    a: Option<&SemanticSchema>,
    b: Option<&SemanticSchema>,
    strict_figma: bool,
    table: &Vec<ColorDistance>,
) -> (r: Option<CellResult>)
    ensures
        ({
            let ok = (a is Some && b is Some) ==> diff_colors_ok(*a->0, *b->0, false);
            match r {
                Some(c) => ok && c@ == cell_spec(
                    screen@,
                    pa@,
                    pb@,
                    match a {
                        Some(x) => Some(*x),
                        None => None,
                    },
                    match b {
                        Some(x) => Some(*x),
                        None => None,
                    },
                    strict_figma,
                    table@,
                ),
                None => !ok,
            }
        }),
{
    let ok = match (a, b) {
        (Some(x), Some(y)) => diff_colors_comparable(x, y, false),
        _ => true,
    };
    if ok {
        Some(compute_cell(screen, pa, pb, a, b, strict_figma, table))
    } else {
        None
    }
}

fn row_comparable(n: usize, row: &Vec<Option<SemanticSchema>>) -> (r: bool)
    ensures
        r == row_ok(n as int, row@),
{
    if row.len() != n {
        return false;
    }
    let mut i: usize = 0;
    while i < n
        invariant
            row@.len() == n,
            i <= n,
            forall|p: int, q: int|
                0 <= p < i && p < q < n && row@[p] is Some && row@[q] is Some ==> diff_colors_ok(
                    #[trigger] row@[p]->0,
                    #[trigger] row@[q]->0,
                    false,
                ),
        decreases n - i,
    {
        let mut j: usize = i + 1;
        while j < n
            invariant
                row@.len() == n,
                i < n,
                i < j <= n,
                forall|p: int, q: int|
                    0 <= p < i && p < q < n && row@[p] is Some && row@[q] is Some ==> diff_colors_ok(
                        #[trigger] row@[p]->0,
                        #[trigger] row@[q]->0,
                        false,
                    ),
                forall|q: int|
                    i < q < j && row@[i as int] is Some && row@[q] is Some ==> diff_colors_ok(
                        row@[i as int]->0,
                        #[trigger] row@[q]->0,
                        false,
                    ),
            decreases n - j,
        {
            match (&row[i], &row[j]) {
                (Some(x), Some(y)) => {
                    if !diff_colors_comparable(x, y, false) {
                        assert(!diff_colors_ok(row@[i as int]->0, row@[j as int]->0, false));
                        return false;
                    }
                },
                _ => {},
            }
            j = j + 1;
        }
        i = i + 1;
    }
    true
}

/// Whether every pair of loaded captures of every screen can be compared,
/// with one row of captures per screen and one capture per platform.
pub fn matrix_comparable(
    platforms: &Vec<String>,
    screens: &Vec<String>,
    loaded: &Vec<Vec<Option<SemanticSchema>>>,
) -> (r: bool)
    ensures
        r == matrix_ok(platforms.deep_view(), screens.deep_view(), loaded_view(loaded@)),
{
    if loaded.len() != screens.len() {
        return false;
    }
    let n = platforms.len();
    let mut s: usize = 0;
    while s < loaded.len()
        invariant
            s <= loaded@.len(),
            n == platforms.deep_view().len(),
            forall|q: int| 0 <= q < s ==> row_ok(n as int, #[trigger] loaded_view(loaded@)[q]),
        decreases loaded@.len() - s,
    {
        if !row_comparable(n, &loaded[s]) {
            assert(!row_ok(n as int, loaded_view(loaded@)[s as int]));
            return false;
        }
        s = s + 1;
    }
    true
}

/// Every cell of the matrix, or nothing when a row of captures does not
/// fit the platforms or a pair of captures cannot be compared.
pub fn matrix_if_comparable(
    platforms: &Vec<String>,
    screens: &Vec<String>,
    loaded: &Vec<Vec<Option<SemanticSchema>>>,
    strict_figma: bool,
    table: &Vec<ColorDistance>,
) -> (r: Option<Vec<CellResult>>)
    ensures
        match r {
            Some(cells) => matrix_ok(platforms.deep_view(), screens.deep_view(), loaded_view(loaded@)) && cells_view(
                cells@,
            ) == matrix_cells(
                screens.deep_view(),
                platforms.deep_view(),
                loaded_view(loaded@),
                screens@.len() as int,
                strict_figma,
                table@,
            ),
            None => !matrix_ok(platforms.deep_view(), screens.deep_view(), loaded_view(loaded@)),
        },
{
    if matrix_comparable(platforms, screens, loaded) {
        Some(compute_matrix(platforms, screens, loaded, strict_figma, table))
    } else {
        None
    }
}

} // verus!
