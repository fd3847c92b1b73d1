use vdb::names::{contains_name, insert_name, name_less, name_passes, parse_name_filter, platform_dir_wanted};
use vdb::numfmt::{fmt_int, fmt_micro, fmt_nat, fmt_tenths};
use vdb::render::{
    best_image_from_contents, decode_entities, hex_readable, parse_hex, text_color, type_border, type_color,
    type_fill, wrap_lines, ImageEntry,
};
use vdb::svg::{svg_path_ops, tokenize_svg, Coord, PathOp};
use vdb::tolerance::{parse_pct, parse_px, RawTolerances, Tolerances, WeightTolerance};

fn s(v: &str) -> String {
    v.to_string()
}

fn text(v: Vec<char>) -> String {
    v.into_iter().collect()
}

#[test]
fn test_parse_manifest() {
    let raw = RawTolerances {
        spatial: Some(s("10%")),
        text_size: Some(s("5%")),
        color: Some(3_000_000),
        text_weight: Some(s("exact")),
        icon_size: None,
        card_size: None,
        corner_radius: Some(s("2px")),
        border_width: Some(s("1px")),
    };
    let t = Tolerances::from_raw(Some(raw)).unwrap();
    assert_eq!(t.spatial_pct, 10_000_000);
    assert_eq!(t.color_delta_e, 3_000_000);
    assert_eq!(t.corner_radius_px, 2_000_000);
}

#[test]
fn tolerance_defaults_and_errors() {
    let t = Tolerances::from_raw(None).unwrap();
    assert_eq!(t.spatial_pct, 10_000_000);
    assert_eq!(t.text_size_pct, 5_000_000);
    assert_eq!(t.card_size_pct, 10_000_000);
    assert_eq!(t.border_width_px, 1_000_000);
    assert_eq!(t.text_weight, WeightTolerance::Exact);
    let bad = RawTolerances {
        spatial: Some(s("ten%")),
        text_size: None,
        color: None,
        text_weight: None,
        icon_size: None,
        card_size: None,
        corner_radius: Some(s("zz")),
        border_width: None,
    };
    assert_eq!(Tolerances::from_raw(Some(bad)).unwrap_err(), "invalid percentage for spatial: ten");
}

#[test]
fn decimal_values() {
    assert_eq!(parse_pct(" 12.5% ", "spatial"), Ok(12_500_000));
    assert_eq!(parse_pct("10%%", "spatial"), Ok(10_000_000));
    assert_eq!(parse_pct("-0.25", "spatial"), Ok(-250_000));
    assert_eq!(parse_px("2.5px", "corner_radius"), Ok(2_500_000));
    assert_eq!(parse_px("1dp", "border_width"), Ok(1_000_000));
    assert_eq!(parse_px("3pxdp", "f"), Err(s("invalid pixel value for f: 3px")));
    assert_eq!(parse_pct("x%", "spatial"), Err(s("invalid percentage for spatial: x")));
}

#[test]
fn decimal_values_as_floats_read_them() {
    assert_eq!(parse_pct("1e1%", "spatial"), Ok(10_000_000));
    assert_eq!(parse_pct("1.5E-1", "spatial"), Ok(150_000));
    assert_eq!(parse_pct(".5e+2", "spatial"), Ok(50_000_000));
    assert_eq!(parse_pct("5.", "spatial"), Ok(5_000_000));
    assert_eq!(parse_px("2e-7px", "corner_radius"), Ok(0));
    assert_eq!(parse_px("0.0000019", "corner_radius"), Ok(1));
    assert_eq!(parse_pct("-1e30", "spatial"), Ok(i64::MIN));
    assert_eq!(parse_pct("1e99999999999999999999999", "spatial"), Ok(i64::MAX));
    assert_eq!(parse_pct("0e99999999999999999999999", "spatial"), Ok(0));
    assert_eq!(parse_pct("5e-99999999999999999999999", "spatial"), Ok(0));
    assert_eq!(parse_pct("inf%", "spatial"), Ok(i64::MAX));
    assert_eq!(parse_pct("-Infinity", "spatial"), Ok(i64::MIN));
    assert_eq!(parse_pct("NaN", "spatial"), Ok(i64::MIN));
    assert_eq!(parse_pct("1e", "spatial"), Err(s("invalid percentage for spatial: 1e")));
    assert_eq!(parse_pct("e5", "spatial"), Err(s("invalid percentage for spatial: e5")));
    assert_eq!(parse_pct("infinit", "spatial"), Err(s("invalid percentage for spatial: infinit")));
    assert_eq!(parse_pct(".", "spatial"), Err(s("invalid percentage for spatial: .")));
}

#[test]
fn number_text() {
    assert_eq!(text(fmt_nat(0)), "0");
    assert_eq!(text(fmt_nat(1204)), "1204");
    assert_eq!(text(fmt_int(-37)), "-37");
    assert_eq!(text(fmt_micro(13_150_000)), "13.15");
    assert_eq!(text(fmt_micro(14_000_000)), "14");
    assert_eq!(text(fmt_micro(-500_000)), "-0.5");
    assert_eq!(text(fmt_tenths(1, 3)), "0.3");
    assert_eq!(text(fmt_tenths(-5, 4)), "-1.2");
    assert_eq!(text(fmt_tenths(1, 4)), "0.2");
    assert_eq!(text(fmt_tenths(3, 4)), "0.8");
    assert_eq!(text(fmt_tenths(250_000, 1_000_000)), "0.2");
    assert_eq!(text(fmt_tenths(5, 100)), "0.1");
    assert_eq!(text(fmt_tenths(15, 100)), "0.1");
    assert_eq!(text(fmt_tenths(35, 100)), "0.3");
    assert_eq!(text(fmt_tenths(45, 100)), "0.5");
    assert_eq!(text(fmt_tenths(55, 100)), "0.6");
    assert_eq!(text(fmt_tenths(1245, 100)), "12.4");
    assert_eq!(text(fmt_tenths(-1, 100)), "-0.0");
}

#[test]
fn name_filters() {
    assert_eq!(parse_name_filter("discover, site-detail"), vec![s("discover"), s("site-detail")]);
    assert_eq!(parse_name_filter("a,,b "), vec![s("a"), s(""), s("b")]);
    let f = Some(vec![s("ios"), s("android")]);
    assert!(contains_name(&vec![s("ios")], "ios"));
    assert!(name_passes(&None, "web"));
    assert!(!name_passes(&f, "web"));
    assert!(platform_dir_wanted("ios", &f));
    assert!(!platform_dir_wanted(".git", &None));
    assert!(!platform_dir_wanted("tests", &None));
    assert!(!platform_dir_wanted("docs", &None));
    assert!(platform_dir_wanted("web", &None));
}

#[test]
fn sorted_name_sets() {
    assert!(name_less("android", "ios"));
    assert!(!name_less("ios", "ios"));
    assert!(name_less("io", "ios"));
    assert!(name_less("Zeta", "alpha"));
    let mut v: Vec<String> = Vec::new();
    insert_name(&mut v, s("ios"));
    insert_name(&mut v, s("android"));
    insert_name(&mut v, s("ios"));
    insert_name(&mut v, s("figma"));
    assert_eq!(v, vec![s("android"), s("figma"), s("ios")]);
}

#[test]
fn type_colours() {
    assert_eq!(type_color("button"), (0, 100, 200));
    assert_eq!(type_color("scroll"), (160, 160, 200));
    assert_eq!(type_color("unknown"), (130, 130, 130));
    assert_eq!(type_fill("button"), (0, 100, 255, 40));
    assert_eq!(type_fill("other"), (100, 100, 100, 20));
    assert_eq!(type_border("text"), (200, 150, 0, 200));
    assert_eq!(type_border("pager"), (100, 100, 200, 120));
}

#[test]
fn entities_decode_in_order() {
    assert_eq!(decode_entities("Fish &amp; Chips"), "Fish & Chips");
    assert_eq!(decode_entities("&lt;b&gt; &quot;x&quot; &apos;y&apos;"), "<b> \"x\" 'y'");
    assert_eq!(decode_entities("&amp;lt;"), "<");
}

#[test]
fn hex_colours() {
    assert!(hex_readable("#FF8000"));
    assert_eq!(parse_hex("#FF8000"), Some((255, 128, 0)));
    assert_eq!(parse_hex("##80ff8000"), Some((255, 128, 0)));
    assert_eq!(parse_hex("#FFF"), None);
    assert_eq!(parse_hex("zz0000"), None);
    assert!(!hex_readable("#a\u{e9}bcd"));
    assert!(hex_readable("\u{e9}\u{e9}\u{e9}\u{e9}"));
    assert_eq!(text_color((250, 250, 250)), (40, 40, 40));
    assert_eq!(text_color((10, 20, 30)), (10, 20, 30));
}

#[test]
fn text_wraps_at_spaces() {
    let lines = wrap_lines("hello world foo", 10, 60, 20, 0, 100, 1000);
    assert_eq!(lines, vec![(s("hello"), 0), (s("world"), 20), (s("foo"), 40)]);
    let clipped = wrap_lines("hello world foo", 10, 60, 20, 0, 30, 1000);
    assert_eq!(clipped, vec![(s("hello"), 0)]);
    let long = wrap_lines("abcdefghij", 10, 40, 20, 5, 100, 1000);
    assert_eq!(long, vec![(s("abcd"), 5), (s("efgh"), 25), (s("ij"), 45)]);
    assert_eq!(wrap_lines("abc", 0, 40, 20, 0, 100, 1000), vec![]);
}

#[test]
fn best_catalogue_image() {
    let e = |f: Option<&str>, sc: Option<&str>| ImageEntry {
        filename: f.map(|x| x.to_string()),
        scale: sc.map(|x| x.to_string()),
    };
    let images = vec![
        e(None, Some("2x")),
        e(Some("a.png"), Some("1x")),
        e(Some("b.png"), Some("3x")),
        e(Some("c.png"), Some("2x")),
        e(Some("d.png"), None),
    ];
    assert_eq!(best_image_from_contents(&images), Some(s("c.png")));
    assert_eq!(best_image_from_contents(&vec![e(Some("a.png"), None), e(Some("b.png"), Some("2x"))]), Some(s("b.png")));
    assert_eq!(best_image_from_contents(&vec![e(Some("a.png"), Some("1x")), e(Some("b.png"), None)]), Some(s("a.png")));
    assert_eq!(best_image_from_contents(&vec![e(Some("a.png"), None), e(Some("b.png"), Some("4x"))]), Some(s("a.png")));
    assert_eq!(best_image_from_contents(&vec![e(None, Some("2x"))]), None);
}

#[test]
fn svg_tokens() {
    assert_eq!(tokenize_svg("M10,20L30 40z"), vec![s("M"), s("10"), s("20"), s("L"), s("30"), s("40"), s("z")]);
    assert_eq!(tokenize_svg("1e-5-3"), vec![s("1"), s("e"), s("-5"), s("-3")]);
    assert_eq!(tokenize_svg("h-1.5.5"), vec![s("h"), s("-1.5.5")]);
}

#[test]
fn svg_operations() {
    let toks = tokenize_svg("M10,20L30 40z");
    let nums: Vec<bool> = toks.iter().map(|t| t.parse::<f32>().is_ok()).collect();
    assert_eq!(
        svg_path_ops(&toks, &nums),
        vec![
            PathOp::Begin(Coord::Abs(1), Coord::Abs(2)),
            PathOp::LineTo(Coord::Abs(4), Coord::Abs(5)),
            PathOp::Close,
        ]
    );
    let toks2 = tokenize_svg("M0 0 1 1 2 2 h5 v-3 Q1 2 3 4 c1 2 3 4 5 6");
    let nums2: Vec<bool> = toks2.iter().map(|t| t.parse::<f32>().is_ok()).collect();
    assert_eq!(
        svg_path_ops(&toks2, &nums2),
        vec![
            PathOp::Begin(Coord::Abs(1), Coord::Abs(2)),
            PathOp::LineTo(Coord::Abs(3), Coord::Abs(4)),
            PathOp::LineTo(Coord::Abs(5), Coord::Abs(6)),
            PathOp::LineTo(Coord::Rel(8), Coord::Keep),
            PathOp::LineTo(Coord::Keep, Coord::Rel(10)),
            PathOp::CubicTo(Coord::Rel(17), Coord::Rel(18), Coord::Rel(19), Coord::Rel(20), Coord::Rel(21), Coord::Rel(22)),
            PathOp::End,
        ]
    );
    let toks3 = tokenize_svg("m1 1 Z Z H3");
    let nums3: Vec<bool> = toks3.iter().map(|t| t.parse::<f32>().is_ok()).collect();
    assert_eq!(
        svg_path_ops(&toks3, &nums3),
        vec![
            PathOp::Begin(Coord::Rel(1), Coord::Rel(2)),
            PathOp::Close,
            PathOp::LineTo(Coord::AbsOrKeep(6), Coord::Keep),
        ]
    );
}

#[test]
fn svg_tokens_spell_the_kept_characters() {
    let d = "M10,-20 L3e-4-5 z#";
    let toks = tokenize_svg(d);
    let joined: String = toks.concat();
    let kept: String = d.chars().filter(|c| c.is_alphabetic() || c.is_ascii_digit() || *c == '.' || *c == '-').collect();
    assert_eq!(joined, kept);
    assert!(toks.iter().all(|t| !t.is_empty()));
}
