use vdb::diff::Severity;
use vdb::element_matrix::{
    cell_symbol, compute_cell, compute_cell_checked, compute_matrix, derive_worst, matrix_if_comparable, exit_code_for, grid_header, grid_line,
    pick_top_reason, screen_row, short_reason, summarize, summary_line, worst_label, CellResult,
    ExitMode,
};
use vdb::schema::{Bounds, SemanticElement, SemanticSchema, Viewport};

fn capture(platform: &str, device: &str, density: i64, content: &str) -> SemanticSchema {
    let mut e = SemanticElement::new(
        "hello_label".to_string(),
        "text".to_string(),
        Bounds { x: 10, y: 10, w: 100, h: 20 },
    );
    e.content = Some(content.to_string());
    e.accessible = Some(true);
    SemanticSchema {
        screen: "test".to_string(),
        device: device.to_string(),
        platform: platform.to_string(),
        timestamp: "2026-01-01T00:00:00Z".to_string(),
        viewport: Some(Viewport { width: 400, height: 800, density }),
        elements: vec![e],
    }
}

fn ios_min(content: &str) -> SemanticSchema {
    capture("ios", "iPhone", 3_000_000, content)
}

fn android_min(content: &str) -> SemanticSchema {
    capture("android", "Pixel", 2_625_000, content)
}

fn cell(screen: &str, pa: &str, pb: &str, worst: Option<Severity>, top: Option<&str>) -> CellResult {
    CellResult {
        screen: screen.to_string(),
        pair: (pa.to_string(), pb.to_string()),
        worst,
        matched: 1,
        errors: if worst == Some(Severity::Error) { 2 } else { 0 },
        warnings: if worst == Some(Severity::Warning) { 1 } else { 0 },
        infos: if worst == Some(Severity::Info) { 3 } else { 0 },
        top_reason: top.map(|s| s.to_string()),
    }
}

fn strings(v: &[&str]) -> Vec<String> {
    v.iter().map(|s| s.to_string()).collect()
}

#[test]
fn single_screen_all_pass() {
    let platforms = strings(&["android", "ios"]);
    let screens = strings(&["discover"]);
    let loaded = vec![vec![Some(android_min("Hello")), Some(ios_min("Hello"))]];
    let cells = compute_matrix(&platforms, &screens, &loaded, false, &vec![]);
    assert_eq!(cells.len(), 1, "expected 1 pair-cell");
    let c = &cells[0];
    assert_eq!(c.errors, 0);
    assert_eq!(c.warnings, 0);
    assert_eq!(c.worst, None, "expected PASS, got {:?} top={:?}", c.worst, c.top_reason);
}

#[test]
fn mixed_severity_aggregation_and_figma_demotion() {
    let mut figma = ios_min("Hello");
    figma.platform = "figma".to_string();
    let platforms = strings(&["android", "figma", "ios"]);
    let screens = strings(&["discover"]);
    let loaded = vec![vec![Some(android_min("World")), Some(figma), Some(ios_min("Hello"))]];
    let cells = compute_matrix(&platforms, &screens, &loaded, false, &vec![]);
    assert_eq!(cells.len(), 3, "expected 3 pairs for 3 platforms");

    let ai = cells.iter().find(|c| c.pair == ("android".into(), "ios".into())).unwrap();
    assert_eq!(ai.worst, Some(Severity::Error), "android-ios should be ERROR");

    let af = cells.iter().find(|c| c.pair == ("android".into(), "figma".into())).unwrap();
    assert!(
        matches!(af.worst, Some(Severity::Warning)),
        "android-figma should be demoted to WARN, got {:?}",
        af.worst
    );

    let fi = cells.iter().find(|c| c.pair == ("figma".into(), "ios".into())).unwrap();
    assert!(
        fi.worst.is_none() || fi.worst == Some(Severity::Info),
        "figma-ios should be PASS/INFO, got {:?}",
        fi.worst
    );

    assert_eq!(exit_code_for(&cells, ExitMode::ReportOnly), 0);
    assert_eq!(exit_code_for(&cells, ExitMode::ErrorOnly), 1);
    assert_eq!(exit_code_for(&cells, ExitMode::Strict), 1);
}

#[test]
fn strict_figma_keeps_errors() {
    let mut figma = ios_min("Hello");
    figma.platform = "figma".to_string();
    let loose = compute_cell("discover", "android", "figma", Some(&android_min("World")), Some(&figma), false, &vec![]);
    let strict = compute_cell("discover", "android", "figma", Some(&android_min("World")), Some(&figma), true, &vec![]);
    assert_eq!(loose.worst, Some(Severity::Warning));
    assert_eq!(loose.errors, 0);
    assert_eq!(strict.worst, Some(Severity::Error));
    assert!(strict.errors >= 1);
    assert_eq!(strict.top_reason.as_deref(), Some("WRONG_TEXT"));
}

#[test]
fn missing_capture_is_an_error_cell() {
    let c = compute_cell("home", "android", "ios", None, Some(&ios_min("Hello")), false, &vec![]);
    assert_eq!(c.worst, Some(Severity::Error));
    assert_eq!(c.errors, 1);
    assert_eq!(c.matched, 0);
    assert_eq!(c.top_reason.as_deref(), Some("missing semantic.yaml for android"));
    let d = compute_cell("home", "android", "ios", Some(&android_min("Hello")), None, false, &vec![]);
    assert_eq!(d.top_reason.as_deref(), Some("missing semantic.yaml for ios"));
    let e = compute_cell("home", "android", "figma", None, None, false, &vec![]);
    assert_eq!(e.worst, Some(Severity::Error));
    assert_eq!(e.top_reason.as_deref(), Some("missing semantic.yaml for android"));
}

#[test]
fn matrix_has_one_cell_per_pair_and_screen() {
    let platforms = strings(&["a", "b", "c", "d"]);
    let screens = strings(&["one", "two"]);
    let row = || vec![Some(ios_min("x")), Some(ios_min("x")), Some(ios_min("x")), Some(ios_min("x"))];
    let loaded = vec![row(), row()];
    let cells = compute_matrix(&platforms, &screens, &loaded, false, &vec![]);
    assert_eq!(cells.len(), 12);
    assert_eq!(cells[0].screen, "one");
    assert_eq!(cells[0].pair, ("a".to_string(), "b".to_string()));
    assert_eq!(cells[5].pair, ("c".to_string(), "d".to_string()));
    assert_eq!(cells[6].screen, "two");
}

#[test]
fn derive_worst_ranks_severities() {
    let none: Vec<String> = vec![];
    assert_eq!(derive_worst(&none, &none, &none), None);
    assert_eq!(derive_worst(&strings(&["MISSING: x"]), &none, &none), Some(Severity::Error));
    assert_eq!(derive_worst(&none, &strings(&["SIZE: y"]), &none), Some(Severity::Warning));
    assert_eq!(derive_worst(&none, &strings(&["SIZE: y (within tolerance)"]), &none), Some(Severity::Info));
    assert_eq!(derive_worst(&none, &none, &strings(&["EXTRA: z"])), Some(Severity::Info));
}

#[test]
fn top_reason_prefers_untolerated_warnings() {
    let none: Vec<String> = vec![];
    let w = strings(&["SIZE: a within tolerance", "COLOR: b"]);
    assert_eq!(pick_top_reason(&none, &w, &none), Some("COLOR".to_string()));
    let tol = strings(&["SIZE: a within tolerance"]);
    assert_eq!(pick_top_reason(&none, &tol, &strings(&["EXTRA: q"])), Some("SIZE".to_string()));
    assert_eq!(pick_top_reason(&strings(&["WRONG_TEXT: t"]), &w, &none), Some("WRONG_TEXT".to_string()));
    assert_eq!(pick_top_reason(&none, &none, &strings(&["EXTRA: q"])), Some("EXTRA".to_string()));
    assert_eq!(pick_top_reason(&none, &none, &none), None);
    assert_eq!(short_reason("no colon here"), "no colon here");
    assert_eq!(short_reason(":lead"), "");
}

#[test]
fn cell_symbols() {
    assert_eq!(cell_symbol(&cell("s", "a", "b", None, None)), "PASS");
    assert_eq!(cell_symbol(&cell("s", "a", "b", Some(Severity::Info), None)), "INFO(3)");
    assert_eq!(cell_symbol(&cell("s", "a", "b", Some(Severity::Warning), Some("SIZE"))), "WARN(SIZE)");
    assert_eq!(cell_symbol(&cell("s", "a", "b", Some(Severity::Warning), None)), "WARN(1)");
    assert_eq!(cell_symbol(&cell("s", "a", "b", Some(Severity::Error), Some("MISSING"))), "ERROR(MISSING)");
    assert_eq!(cell_symbol(&cell("s", "a", "b", Some(Severity::Error), None)), "ERROR(2)");
}

#[test]
fn exit_codes_by_mode() {
    let empty: Vec<CellResult> = vec![];
    assert_eq!(exit_code_for(&empty, ExitMode::Strict), 0);
    let info = vec![cell("s", "a", "b", Some(Severity::Info), None)];
    assert_eq!(exit_code_for(&info, ExitMode::Strict), 1);
    assert_eq!(exit_code_for(&info, ExitMode::ErrorOnly), 0);
    let err = vec![cell("s", "a", "b", Some(Severity::Error), None)];
    assert_eq!(exit_code_for(&err, ExitMode::ReportOnly), 0);
    assert_eq!(exit_code_for(&err, ExitMode::ErrorOnly), 1);
}

#[test]
fn totals_and_summary_line() {
    let cells = vec![
        cell("s", "a", "b", None, None),
        cell("s", "a", "c", Some(Severity::Info), None),
        cell("s", "b", "c", Some(Severity::Error), Some("MISSING")),
        cell("t", "a", "b", None, None),
    ];
    let t = summarize(&cells);
    assert_eq!((t.pass, t.info, t.warn, t.error), (2, 1, 0, 1));
    assert_eq!(summary_line(&cells), "SUMMARY: 2 pass, 1 info, 0 warn, 1 error  (4 cells total)");
}

#[test]
fn grid_rows_sort_by_pair() {
    let cells = vec![
        cell("s1", "ios", "web", None, None),
        cell("s2", "a", "b", None, None),
        cell("s1", "android", "ios", Some(Severity::Error), Some("MISSING")),
        cell("s1", "android", "figma", None, None),
    ];
    let row = screen_row(&cells, "s1");
    assert_eq!(row, vec![3, 2, 0]);
    assert_eq!(
        grid_line("s1", &cells, &row),
        "screen=s1                    android-figma: PASS  android-ios: ERROR(MISSING)  ios-web: PASS"
    );
    assert_eq!(screen_row(&cells, "none"), Vec::<usize>::new());
    let long = "a_screen_name_longer_than_twenty";
    assert_eq!(grid_line(long, &cells, &vec![]), format!("screen={long}"));
    assert_eq!(grid_header(1, 3), "element-matrix \u{2014} 1 screens \u{d7} 3 platforms");
}

#[test]
fn worst_labels() {
    assert_eq!(worst_label(None), "pass");
    assert_eq!(worst_label(Some(Severity::Info)), "info");
    assert_eq!(worst_label(Some(Severity::Warning)), "warn");
    assert_eq!(worst_label(Some(Severity::Error)), "error");
}

#[test]
fn checked_cell_and_matrix_refuse_uncuttable_colours() {
    let mut odd = ios_min("Hello");
    odd.elements[0].color = Some("#a\u{e9}bcdef".to_string());
    let mut plain = android_min("Hello");
    plain.elements[0].color = Some("#ffffff".to_string());
    assert!(compute_cell_checked("s", "android", "ios", Some(&plain), Some(&odd), false, &vec![]).is_none());
    let platforms = strings(&["android", "ios"]);
    let screens = strings(&["s"]);
    assert!(matrix_if_comparable(&platforms, &screens, &vec![vec![Some(plain), Some(odd)]], false, &vec![]).is_none());
}

#[test]
fn checked_cell_and_matrix_agree_with_unchecked() {
    let a = android_min("Hello");
    let b = ios_min("World");
    let c = compute_cell_checked("s", "android", "ios", Some(&a), Some(&b), false, &vec![]).unwrap();
    let d = compute_cell("s", "android", "ios", Some(&a), Some(&b), false, &vec![]);
    assert_eq!((c.worst, c.matched, c.errors, c.warnings, c.infos), (d.worst, d.matched, d.errors, d.warnings, d.infos));
    assert_eq!(c.top_reason, d.top_reason);
    assert_eq!(c.worst, Some(Severity::Error));
    let platforms = strings(&["android", "ios"]);
    let screens = strings(&["s"]);
    let cells = matrix_if_comparable(&platforms, &screens, &vec![vec![Some(a), Some(b)]], false, &vec![]).unwrap();
    assert_eq!(cells.len(), 1);
    assert_eq!(cells[0].errors, d.errors);
}

#[test]
fn tolerated_warnings_leave_information() {
    let none: Vec<String> = vec![];
    let tolerated = vec!["WRONG_RADIUS: a (\u{394}1.0dp within tolerance)".to_string()];
    assert_eq!(derive_worst(&none, &tolerated, &none), Some(Severity::Info));
    let mixed = vec![tolerated[0].clone(), "WRONG_TYPE: b".to_string()];
    assert_eq!(derive_worst(&none, &mixed, &none), Some(Severity::Warning));
}
