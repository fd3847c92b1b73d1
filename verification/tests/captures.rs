use vdb::diff::{
    colors_equal, colors_equal_checked, diff_exit_code, diff_if_comparable, diff_schemas, is_root_container,
    lazy_static_regex, normalize_color, normalize_color_checked, tally, DiffReport,
};
use vdb::matching::{match_elements, strip_dynamic_counts, ElementMatch, MatchMethod};
use vdb::matrix::{
    extract_failure, extract_field, failure_line, latest_runs, lookup_run, matrix_summary, parse_run_result,
    RunResult,
};
use vdb::regions::{content_matches, discover_regions, drift_note, match_regions, normalize_content, region_defs};
use vdb::schema::{Bounds, Font, SemanticElement, SemanticSchema};
use vdb::tolerances_infer::find_matched_pairs;
use vdb::validate_content::{
    collect_wda_elements, compare_content, exclude_external, exclude_offscreen, external_rect_list, extract_attr,
    parse_bounds_from_node, parse_uiautomator_xml, px, A11yElement, JsonValue,
};
use vdb::validate_text::{find_ocr, is_text_element, ocr_region, pick_density, text_matches, truncate};

fn s(v: &str) -> String {
    v.to_string()
}

fn b(x: i32, y: i32, w: i32, h: i32) -> Bounds {
    Bounds { x, y, w, h }
}

fn elem(id: &str, t: &str, content: Option<&str>, bounds: Bounds) -> SemanticElement {
    let mut e = SemanticElement::new(s(id), s(t), bounds);
    e.content = content.map(s);
    e
}

fn schema(platform: &str, elements: Vec<SemanticElement>) -> SemanticSchema {
    SemanticSchema {
        screen: s("detail"),
        device: s("d"),
        platform: s(platform),
        timestamp: s("t"),
        viewport: None,
        elements,
    }
}

fn a11y(text: &str, class: &str, x: i64, y: i64, w: i64, h: i64) -> A11yElement {
    A11yElement { text: s(text), class: s(class), x, y, w, h }
}

fn chars(v: &str) -> Vec<char> {
    v.chars().collect()
}

// --- diff -----------------------------------------------------------------

#[test]
fn diff_reports_missing_extra_and_wrong_text() {
    let src = schema(
        "ios",
        vec![
            elem("hello_label", "text", Some("Hello"), b(10, 10, 100, 20)),
            elem("buy_btn", "button", Some("Buy"), b(0, 300, 50, 20)),
        ],
    );
    let tgt = schema(
        "android",
        vec![elem("hello_label", "text", Some("World"), b(10, 10, 100, 20)), elem("logo", "image", None, b(0, 0, 10, 10))],
    );
    let r = diff_schemas(&src, &tgt, &None, false, &vec![]);
    assert_eq!(r.matched, 1);
    assert_eq!(r.unmatched_source, 1);
    assert_eq!(r.unmatched_target, 1);
    assert_eq!(
        r.errors,
        vec![
            s("MISSING: \"Buy\" button (ios:buy_btn) \u{2014} not found in android"),
            s("WRONG_TEXT: hello_label \u{2014} ios:\"Hello\" android:\"World\""),
        ]
    );
    assert_eq!(r.infos, vec![s("EXTRA: \"logo\" image in android (android:logo) \u{2014} not in ios")]);
    assert_eq!(r.pass_count, 0);
    let t = tally(&r);
    assert_eq!((t.violations, t.within_tolerance), (2, 0));
}

#[test]
fn diff_tally_counts_markers() {
    let r = DiffReport {
        matched: 3,
        unmatched_source: 0,
        unmatched_target: 0,
        tolerances_applied: true,
        pass_count: 1,
        errors: vec![s("MISSING: a")],
        warnings: vec![s("SIZE: b VIOLATION"), s("SIZE: c within tolerance"), s("FONT: d")],
        infos: vec![s("POSITION: e within tolerance"), s("EXTRA: f")],
    };
    let t = tally(&r);
    assert_eq!((t.violations, t.within_tolerance), (2, 2));
    assert_eq!(diff_exit_code(&r), 1);
    let quiet = DiffReport {
        matched: 1,
        unmatched_source: 0,
        unmatched_target: 1,
        tolerances_applied: false,
        pass_count: 1,
        errors: vec![],
        warnings: vec![],
        infos: vec![s("EXTRA: f")],
    };
    assert_eq!(diff_exit_code(&quiet), 0);
    let typed = DiffReport { warnings: vec![s("WRONG_TYPE: a")], ..quiet };
    assert_eq!(tally(&typed).violations, 0);
    assert_eq!(diff_exit_code(&typed), 1);
}

#[test]
fn generated_and_root_containers() {
    assert!(lazy_static_regex("LinearLayout_1"));
    assert!(!lazy_static_regex("linearlayout"));
    assert!(!lazy_static_regex("header_1"));
    assert!(is_root_container("DecorView_x"));
    assert!(!is_root_container(""));
    assert!(!is_root_container("header"));
    assert_eq!(normalize_color("#80ff00aa"), "FF00AA");
    assert_eq!(normalize_color("#abc"), "ABC");
    assert!(colors_equal("#ff0000", "FF0000"));
    assert!(!colors_equal("#ff0000", "#00ff00"));
}

#[test]
fn stripping_counts_twice_changes_nothing() {
    for v in ["Reviews (12) (3)", "  Photos ( 4 )  (a)", "x (1", "(2)(3) y"] {
        let once = strip_dynamic_counts(&chars(v));
        assert_eq!(strip_dynamic_counts(&once), once);
    }
}

#[test]
fn dynamic_counts_are_stripped() {
    let t = |v: &str| -> String { strip_dynamic_counts(&chars(v)).into_iter().collect() };
    assert_eq!(t("Reviews (12)"), "Reviews");
    assert_eq!(t("A (b) (3)"), "A (b) (3)");
    assert_eq!(t("Photos ( 1 2 ) more"), "Photos more");
}

// --- regions ----------------------------------------------------------------

fn detail_page(action_y: i32, extra: Vec<SemanticElement>) -> SemanticSchema {
    let mut es = vec![
        elem("save_btn", "button", Some("Save"), b(0, action_y, 50, 40)),
        elem("dir_btn", "button", Some("Directions"), b(60, action_y, 50, 40)),
        elem("share_btn", "button", Some("Share"), b(120, action_y, 50, 40)),
        elem("map_link", "text", Some("See on map"), b(0, 200, 100, 20)),
    ];
    es.extend(extra);
    schema("ios", es)
}

#[test]
fn regions_are_discovered_in_definition_order() {
    let page = detail_page(100, vec![elem("hdr", "text", Some("Categories"), b(0, 300, 100, 20))]);
    let rs = discover_regions(&page);
    let ids: Vec<&str> = rs.iter().map(|r| r.id.as_str()).collect();
    assert_eq!(ids, vec!["action_bar", "map_cta", "categories_section"]);
    assert_eq!(rs[0].elements, vec![s("save_btn"), s("dir_btn"), s("share_btn")]);
    assert_eq!(rs[0].bounds, (0, 100, 170, 40));
    assert_eq!((rs[0].matched, rs[0].patterns), (3, 3));
    assert_eq!(rs[0].description, "Primary site action buttons");
    assert_eq!(rs[1].bounds, (0, 200, 100, 20));
    assert_eq!(region_defs().len(), 8);
}

#[test]
fn regions_match_across_captures() {
    let src = discover_regions(&detail_page(100, vec![elem("hdr", "text", Some("Categories"), b(0, 300, 100, 20))]));
    let tgt = discover_regions(&detail_page(110, vec![elem("contact", "text", Some("Contact us"), b(0, 400, 100, 20))]));
    let m = match_regions(&src, &tgt);
    let ids: Vec<&str> = m.matched.iter().map(|r| r.id.as_str()).collect();
    assert_eq!(ids, vec!["action_bar", "map_cta"]);
    assert_eq!((m.matched[0].dy, m.matched[0].dh), (10, 0));
    assert_eq!((m.matched[0].source_elements, m.matched[0].target_elements), (3, 3));
    assert_eq!(m.source_only, vec![s("categories_section")]);
    assert_eq!(m.target_only, vec![s("contact_section")]);
    assert_eq!(drift_note(10, 0), " (drift: 10dp y, 0dp h)");
    assert_eq!(drift_note(4, 4), "");
}

#[test]
fn fuzzy_content() {
    assert_eq!(normalize_content("  I've Been Here "), "been here");
    assert_eq!(normalize_content("Don\u{2019}t"), "don't");
    assert!(content_matches("Save", &["save"]));
    assert!(content_matches("Rate", &["rate this"]));
    assert!(!content_matches("Share", &["save"]));
    assert!(content_matches("", &["anything"]));
}

// --- content validation -------------------------------------------------------

#[test]
fn uiautomator_dump() {
    let xml = "<hierarchy><node text=\"Hello\" class=\"android.widget.TextView\" bounds=\"[0,10][100,50]\" />\
               <node text=\"\" content-desc=\"Back\" class=\"Btn\" bounds=\"[1,2][3,4]\"/><node text=\"\" class=\"x\"/>\
               <XCUIElementTypeButton type=\"XCUIElementTypeButton\" label=\"Go\" x=\"5\" y=\"6\" width=\"7\" height=\"8\"></hierarchy>";
    let es = parse_uiautomator_xml(xml).unwrap();
    assert_eq!(es.len(), 3);
    assert_eq!((es[0].text.as_str(), es[0].class.as_str()), ("Hello", "android.widget.TextView"));
    assert_eq!((es[0].x, es[0].y, es[0].w, es[0].h), (0, 10, 100, 40));
    assert_eq!(es[1].text, "Back");
    assert_eq!((es[1].x, es[1].y, es[1].w, es[1].h), (1, 2, 2, 2));
    assert_eq!((es[2].text.as_str(), es[2].class.as_str()), ("Go", "XCUIElementTypeButton"));
    assert_eq!((es[2].x, es[2].y, es[2].w, es[2].h), (5, 6, 7, 8));
}

#[test]
fn node_attributes_and_bounds() {
    assert_eq!(extract_attr("<node text=\"a\" resource-text=\"b\">", "text"), Some(s("a")));
    assert_eq!(extract_attr("<node text=\"a>", "text"), None);
    assert_eq!(extract_attr("<node>", "text"), None);
    assert_eq!(parse_bounds_from_node("<node bounds=\"[-5,10][20,30]\">"), (-5, 10, 25, 20));
    assert_eq!(parse_bounds_from_node("<node bounds=\"[1,2]\">"), (0, 0, 0, 0));
    assert_eq!(parse_bounds_from_node("<n x=\"1\" y=\"2\" width=\"3\" height=\"4\" bounds=\"[9,9][9,9]\">"), (1, 2, 3, 4));
}

#[test]
fn wda_dump() {
    let num = |n: i64| JsonValue::Number(Some(n));
    let button = JsonValue::Object(vec![
        (s("label"), JsonValue::Str(s("OK"))),
        (s("type"), JsonValue::Str(s("Button"))),
        (s("x"), num(10)),
        (s("y"), num(20)),
        (s("width"), num(30)),
        (s("height"), num(40)),
    ]);
    let unlabelled = JsonValue::Object(vec![(s("label"), JsonValue::Null), (s("name"), JsonValue::Str(s("ignored")))]);
    let title = JsonValue::Object(vec![(s("name"), JsonValue::Str(s("Title"))), (s("elementType"), JsonValue::Str(s("StaticText")))]);
    let root = JsonValue::Object(vec![
        (s("type"), JsonValue::Str(s("Window"))),
        (s("children"), JsonValue::Array(vec![button, unlabelled, title])),
    ]);
    let mut out = vec![a11y("first", "", 0, 0, 0, 0)];
    collect_wda_elements(&JsonValue::Array(vec![root]), &mut out);
    assert_eq!(out.len(), 3);
    assert_eq!((out[1].text.as_str(), out[1].class.as_str()), ("OK", "Button"));
    assert_eq!((out[1].x, out[1].y, out[1].w, out[1].h), (10, 20, 30, 40));
    assert_eq!((out[2].text.as_str(), out[2].class.as_str()), ("Title", "StaticText"));
    assert_eq!((out[2].x, out[2].w), (0, 0));
}

#[test]
fn dump_filters() {
    assert_eq!(px(100, 2_625_000), 262);
    assert_eq!(px(-3, 1_500_000), -4);
    let es = vec![a11y("a", "", -1, 0, 1, 1), a11y("b", "", 5, 5, 1, 1), a11y("c", "", 10, 0, 1, 1)];
    let kept = exclude_offscreen(&es, 10, 10);
    assert_eq!(kept.len(), 1);
    assert_eq!(kept[0].text, "b");
    let mut map = elem("map", "image", None, b(0, 0, 10, 10));
    map.render = Some(s("external"));
    let rects = external_rect_list(&vec![map, elem("t", "text", None, b(0, 0, 5, 5))], 2_000_000);
    assert_eq!(rects, vec![(0, 0, 20, 20)]);
    let dump = vec![
        a11y("Pin", "MKMapView", 100, 100, 1, 1),
        a11y("Legal", "x", 100, 100, 1, 1),
        a11y("Inside", "V", 10, 10, 5, 5),
        a11y("Out", "V", 30, 0, 5, 5),
    ];
    let left = exclude_external(&dump, &rects);
    assert_eq!(left.len(), 1);
    assert_eq!(left[0].text, "Out");
}

#[test]
fn content_comparison() {
    let elements = vec![
        elem("a", "text", Some("Hello"), b(0, 0, 1, 1)),
        elem("b", "text", Some("World &amp; co"), b(0, 0, 1, 1)),
        elem("c", "text", None, b(0, 0, 1, 1)),
        elem("d", "text", Some(""), b(0, 0, 1, 1)),
        elem("e", "text", Some("hello"), b(0, 0, 1, 1)),
    ];
    let dump = vec![a11y("hello ", "T", 0, 0, 1, 1), a11y("Missing", "T", 0, 0, 1, 1), a11y("", "T", 0, 0, 1, 1)];
    let r = compare_content(&elements, &dump);
    assert_eq!(r.matched, vec![0]);
    assert_eq!(r.missing, vec![1]);
    assert_eq!(r.extra, vec![s("World &amp; co")]);
    assert_eq!(r.a11y_total, 2);
    assert_eq!(r.yaml_total, 2);
}

// --- text validation -------------------------------------------------------------

#[test]
fn ocr_text_rules() {
    assert!(text_matches("Hello  World", "hello world"));
    assert!(text_matches("Save", "Save changes"));
    assert!(!text_matches("Go", "Go!"));
    assert!(text_matches("abc", ""));
    assert!(text_matches("Fish &amp; Chips", "fish & chips"));
    assert_eq!(truncate("hello", 10), "hello");
    assert_eq!(truncate("abcdefghij", 3), "abc...");
    assert_eq!(truncate("\u{e9}\u{e9}\u{e9}", 4), "\u{e9}\u{e9}\u{e9}...");
}

#[test]
fn ocr_elements_and_regions() {
    assert!(is_text_element(&elem("t", "text", Some("Hi"), b(0, 0, 10, 8))));
    assert!(!is_text_element(&elem("t", "text", Some("H"), b(0, 0, 10, 8))));
    assert!(!is_text_element(&elem("t", "text", Some("Hi"), b(0, 0, 9, 8))));
    assert!(!is_text_element(&elem("t", "text", None, b(0, 0, 10, 8))));
    assert!(!is_text_element(&elem("t", "text", Some("Hi"), b(-1, 0, 10, 8))));
    let r = ocr_region(&elem("t", "text", Some("Hi"), b(0, 10, 20, 8)), 3_000_000);
    assert_eq!((r.id.as_str(), r.x, r.y, r.w, r.h), ("t", 0, 28, 64, 28));
    assert_eq!(pick_density(Some(2_000_000), Some(3_500_000)), 2_000_000);
    assert_eq!(pick_density(None, Some(3_500_000)), 3_500_000);
    assert_eq!(pick_density(None, Some(0)), 3_000_000);
    assert_eq!(pick_density(None, None), 3_000_000);
    assert_eq!(find_ocr(&vec![s("a"), s("b"), s("b")], "b"), Some(1));
    assert_eq!(find_ocr(&vec![s("a")], "z"), None);
}

// --- tolerance inference ------------------------------------------------------------

#[test]
fn pairs_for_tolerance_inference() {
    let mut title_a = elem("title", "text", Some("Hello"), b(10, 0, 100, 20));
    title_a.font = Some(Font { family: s("f"), weight: s("w"), size: 14_000_000 });
    title_a.color = Some(s("#FF0000"));
    let mut title_b = elem("title", "text", Some("x"), b(12, 0, 100, 25));
    title_b.font = Some(Font { family: s("f"), weight: s("w"), size: 16_000_000 });
    title_b.foreground = Some(s("#00FF00"));
    let a = schema("ios", vec![title_a, elem("", "button", Some("Buy"), b(0, 50, 80, 30)), elem("", "image", None, b(0, 0, 1, 1))]);
    let tgt = schema("android", vec![elem("other", "button", Some("buy"), b(0, 50, 100, 30)), title_b]);
    let pairs = find_matched_pairs(&a, &tgt);
    assert_eq!(pairs.len(), 2);
    assert_eq!(pairs[0].id, "title");
    assert_eq!(pairs[0].font_sizes, Some((14_000_000, 16_000_000)));
    assert_eq!(pairs[0].colors, Some((s("#FF0000"), s("#00FF00"))));
    assert_eq!(pairs[0].x_offset, Some(2));
    assert_eq!(pairs[0].width_diff, None);
    assert_eq!(pairs[0].height_diff, Some((5, 25)));
    assert_eq!(pairs[1].id, "buy");
    assert_eq!(pairs[1].x_offset, None);
    assert_eq!(pairs[1].width_diff, Some((20, 100)));
}

#[test]
fn untolerated_spacing_drift_is_information() {
    let src = schema("android", vec![elem("card", "image", None, b(10, 10, 50, 50))]);
    let tgt = schema("ios", vec![elem("card", "image", None, b(20, 10, 50, 50))]);
    let r = diff_schemas(&src, &tgt, &None, false, &vec![]);
    assert_eq!(r.matched, 1);
    assert!(r.errors.is_empty());
    assert!(r.warnings.is_empty());
    assert_eq!(r.infos.len(), 1);
    assert!(r.infos[0].starts_with("SPACING: card"));
    assert!(r.infos[0].ends_with("within tolerance)"));
    assert_eq!(diff_exit_code(&r), 0);
}

#[test]
fn untolerated_size_drift_is_information() {
    let src = schema("android", vec![elem("card", "image", None, b(10, 10, 50, 50))]);
    let tgt = schema("ios", vec![elem("card", "image", None, b(10, 10, 50, 62))]);
    let r = diff_schemas(&src, &tgt, &None, false, &vec![]);
    assert!(r.errors.is_empty());
    assert!(r.warnings.is_empty());
    assert_eq!(r.infos.len(), 1);
    assert!(r.infos[0].starts_with("SIZE: card"));
    assert_eq!(diff_exit_code(&r), 0);
}

#[test]
fn root_container_pairs_report_no_drift() {
    let src = schema("android", vec![elem("DecorView", "image", None, b(0, 0, 50, 50))]);
    let tgt = schema("ios", vec![elem("DecorView", "image", None, b(30, 30, 70, 70))]);
    let r = diff_schemas(&src, &tgt, &None, false, &vec![]);
    assert_eq!(r.matched, 1);
    assert!(r.errors.is_empty() && r.warnings.is_empty() && r.infos.is_empty());
    assert_eq!(r.pass_count, 1);
}

#[test]
fn report_counts_cover_every_element() {
    let src = schema(
        "ios",
        vec![
            elem("a", "text", Some("One"), b(0, 0, 10, 10)),
            elem("b", "text", Some("Two"), b(0, 20, 10, 10)),
            elem("c", "text", Some("Three"), b(0, 40, 10, 10)),
        ],
    );
    let tgt = schema(
        "android",
        vec![elem("b", "text", Some("Two"), b(0, 20, 10, 10)), elem("z", "text", Some("Zed"), b(0, 90, 10, 10))],
    );
    let r = diff_schemas(&src, &tgt, &None, false, &vec![]);
    assert_eq!(r.matched + r.unmatched_source, 3);
    assert_eq!(r.matched + r.unmatched_target, 2);
    assert_eq!(r.errors.iter().filter(|m| m.starts_with("MISSING: ")).count(), r.unmatched_source);
    assert_eq!(r.infos.iter().filter(|m| m.starts_with("EXTRA: ")).count(), r.unmatched_target);
}

#[test]
fn accessible_only_equals_prefiltered_comparison() {
    let marked = |id: &str, content: &str, y: i32| {
        let mut e = elem(id, "text", Some(content), b(0, y, 10, 10));
        e.accessible = Some(true);
        e
    };
    let src = schema("ios", vec![marked("a", "One", 0), elem("h", "text", Some("Hidden"), b(0, 30, 10, 10))]);
    let tgt = schema("android", vec![marked("a", "Uno", 0)]);
    let flagged = diff_schemas(&src, &tgt, &None, true, &vec![]);
    let cut = diff_schemas(&schema("ios", vec![marked("a", "One", 0)]), &schema("android", vec![marked("a", "Uno", 0)]), &None, false, &vec![]);
    assert_eq!(flagged.errors, cut.errors);
    assert_eq!(flagged.warnings, cut.warnings);
    assert_eq!(flagged.infos, cut.infos);
    assert_eq!(flagged.errors.len(), 1);
    assert_eq!((flagged.matched, flagged.unmatched_source, flagged.unmatched_target), (1, 0, 0));
    assert_eq!((cut.matched, cut.unmatched_source, cut.unmatched_target), (1, 0, 0));
}

#[test]
fn distinct_ids_are_matched_by_id() {
    let s1 = elem("x", "image", None, b(0, 0, 10, 10));
    let s2 = elem("y", "image", None, b(100, 100, 10, 10));
    let t1 = elem("y", "image", None, b(0, 0, 10, 10));
    let t2 = elem("x", "image", None, b(100, 100, 10, 10));
    let m = match_elements(&vec![&s1, &s2], &vec![&t1, &t2]);
    assert_eq!(
        m.matches,
        vec![
            ElementMatch { src: 0, tgt: 1, method: MatchMethod::Id },
            ElementMatch { src: 1, tgt: 0, method: MatchMethod::Id },
        ]
    );
    assert!(m.unmatched_src.is_empty() && m.unmatched_tgt.is_empty());
}

#[test]
fn checked_colour_entry_points() {
    assert_eq!(normalize_color_checked("#80ff00aa"), Some(s("FF00AA")));
    assert_eq!(normalize_color_checked("#a\u{e9}bcdef"), None);
    assert_eq!(colors_equal_checked("#ff0000", "FF0000"), Some(true));
    assert_eq!(colors_equal_checked("#ff0000", "#00ff00"), Some(false));
    assert_eq!(colors_equal_checked("#a\u{e9}bcdef", "#ffffff"), None);
}

#[test]
fn diff_only_when_colours_can_be_cut() {
    let coloured = |c: &str| {
        let mut e = elem("t", "text", Some("Hi"), b(0, 0, 10, 10));
        e.color = Some(s(c));
        e
    };
    let white = schema("android", vec![coloured("#ffffff")]);
    assert!(diff_if_comparable(&schema("ios", vec![coloured("#a\u{e9}bcdef")]), &white, &None, false, &vec![]).is_none());
    let r = diff_if_comparable(&schema("ios", vec![coloured("#FFFFFF")]), &white, &None, false, &vec![]).unwrap();
    assert_eq!((r.matched, r.pass_count), (1, 1));
    assert!(r.errors.is_empty() && r.warnings.is_empty() && r.infos.is_empty());
}

#[test]
fn pairs_never_outnumber_either_capture() {
    let a = schema("ios", vec![elem("k", "text", Some("Same"), b(0, 0, 1, 1)), elem("k", "text", Some("Same"), b(0, 5, 1, 1))]);
    let t = schema("android", vec![elem("k", "text", Some("same"), b(0, 0, 1, 1))]);
    let pairs = find_matched_pairs(&a, &t);
    assert_eq!(pairs.len(), 1);
    let none = schema("ios", vec![elem("", "image", None, b(0, 0, 1, 1))]);
    assert!(find_matched_pairs(&none, &schema("android", vec![elem("", "image", None, b(0, 0, 1, 1))])).is_empty());
}

// --- test run matrix ---------------------------------------------------------------

const ANDROID_RUN: &str = "tc_id: TC-1\ntc_name: \"Login\"\nplatform: android\ndevice: Pixel\nresult: FAIL\nstarted: 2026-01-01\nsteps:\n  - step: 1\n    result: PASS\n  - step: 2\n    result: FAIL\n    error: 'button missing'\n";

const IOS_RUN: &str = "id: TC-2\nname: Search\ndevice: iPhone\nsteps:\n  - step: 1\n    result: FAIL\n";

fn run(tc: &str, p: &str, result: &str, ts: &str) -> RunResult {
    RunResult {
        tc_id: s(tc),
        tc_name: s(""),
        platform: s(p),
        device: s(""),
        result: s(result),
        failure_step: None,
        failure_reason: None,
        timestamp: s(ts),
    }
}

#[test]
fn run_logs_are_read() {
    let a = parse_run_result(ANDROID_RUN, "runs/tc1.yaml", None).unwrap();
    assert_eq!((a.tc_id.as_str(), a.tc_name.as_str(), a.platform.as_str()), ("TC-1", "Login", "android"));
    assert_eq!((a.device.as_str(), a.result.as_str()), ("Pixel", "FAIL"));
    assert_eq!(a.failure_step, Some(2));
    assert_eq!(a.failure_reason, Some(s("button missing")));
    assert_eq!(a.timestamp, "2026-01-01");
    let i = parse_run_result(IOS_RUN, "runs/run-ios-1.yaml", Some(s("T9"))).unwrap();
    assert_eq!((i.tc_id.as_str(), i.tc_name.as_str(), i.platform.as_str()), ("TC-2", "Search", "ios"));
    assert_eq!(i.result, "FAIL");
    assert_eq!((i.failure_step, i.failure_reason.clone()), (Some(1), None));
    assert_eq!(i.timestamp, "T9");
    assert!(parse_run_result("name: x\n", "a.yaml", None).is_none());
    let p = parse_run_result("id: TC-3\nresult: PASS\n", "x-android-y.yaml", None).unwrap();
    assert_eq!((p.platform.as_str(), p.failure_step), ("android", None));
}

#[test]
fn fields_and_failures() {
    assert_eq!(extract_field("  key: 'v' \n", "key:"), Some(s("v")));
    assert_eq!(extract_field("k:\nk: 2\n", "k:"), Some(s("2")));
    assert_eq!(extract_field("x: 1", "k:"), None);
    assert_eq!(extract_failure("step: 3\nresult: FAIL\nerror: \"boom\"\n"), (Some(3), Some(s("boom"))));
    assert_eq!(extract_failure("result: PASS\n"), (None, None));
}

#[test]
fn latest_runs_and_summary() {
    let runs = vec![
        run("TC-2", "ios", "PASS", "2026-01-02"),
        run("TC-1", "ios", "FAIL", "2026-01-01"),
        run("TC-1", "ios", "PASS", "2026-01-03"),
        run("TC-1", "android", "FAIL", "2026-01-01"),
        run("TC-1", "ios", "FAIL", "2026-01-03"),
    ];
    let latest = latest_runs(&runs);
    let keys: Vec<(&str, &str, &str)> =
        latest.iter().map(|r| (r.tc_id.as_str(), r.platform.as_str(), r.result.as_str())).collect();
    assert_eq!(keys, vec![("TC-1", "android", "FAIL"), ("TC-1", "ios", "PASS"), ("TC-2", "ios", "PASS")]);
    assert_eq!(lookup_run(&latest, "TC-2", "ios"), Some(2));
    assert_eq!(lookup_run(&latest, "TC-2", "android"), None);
    let m = matrix_summary(&latest);
    assert_eq!(m.tcs, vec![s("TC-1"), s("TC-2")]);
    assert_eq!(m.platforms, vec![s("android"), s("ios")]);
    assert_eq!((m.pass, m.fail, m.missing), (2, 1, 1));
    let mut f = run("TC-1", "android", "FAIL", "t");
    f.failure_step = Some(2);
    f.failure_reason = Some(s("button missing"));
    assert_eq!(failure_line(&f), "  TC-1 (android) \u{2014} step 2 button missing");
    assert_eq!(failure_line(&run("TC-2", "ios", "FAIL", "t")), "  TC-2 (ios) \u{2014}  unknown");
}
