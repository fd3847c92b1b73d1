use vdb::overlay::{clip_box, default_safe_top, label_plate, max_right_edge};
use vdb::pixels::{
    color_close, compute_pixel_diff, draw_fill_rect, draw_stroke_rect, generate_diff_image, id_to_hue,
    gray_stats, multiply_colors, side_by_side, validate_bounds, Canvas, HIGHLIGHT, SEPARATOR, STRIP_BACKGROUND,
};
use vdb::render::{bounds_picture_boxes, needs_shrink};
use vdb::schema::{Bounds, SemanticElement, SemanticSchema};
use vdb::validate_v2::{
    box_area, checked_elements, difference, element_label, fill_samples, is_layout, min_capture_width,
    occluded_area, paint_layers, screen_blend, stroke_samples, viewport_of_platform, z_order, Layer, WHITE,
};

const RED: (u8, u8, u8) = (220, 10, 10);
const BLUE: (u8, u8, u8) = (10, 10, 220);

fn b(x: i32, y: i32, w: i32, h: i32) -> Bounds {
    Bounds { x, y, w, h }
}

fn elem(id: &str, t: &str, bounds: Bounds) -> SemanticElement {
    SemanticElement::new(id.to_string(), t.to_string(), bounds)
}

fn schema(platform: &str, elements: Vec<SemanticElement>) -> SemanticSchema {
    SemanticSchema {
        screen: "s".to_string(),
        device: "d".to_string(),
        platform: platform.to_string(),
        timestamp: "t".to_string(),
        viewport: None,
        elements,
    }
}

fn row(pixels: &[(u8, u8, u8)]) -> Canvas {
    Canvas { width: pixels.len() as u32, height: 1, rows: vec![pixels.to_vec()] }
}

#[test]
fn canvas_fill_get_put() {
    let mut c = Canvas::filled(3, 2, (1, 2, 3));
    assert_eq!(c.get(2, 1), (1, 2, 3));
    c.put(1, 0, (9, 9, 9));
    assert_eq!(c.get(1, 0), (9, 9, 9));
    assert_eq!(c.get(0, 0), (1, 2, 3));
}

#[test]
fn fill_rect_clips_to_canvas() {
    let mut c = Canvas::filled(3, 3, WHITE);
    draw_fill_rect(&mut c, -1, 1, 3, 5, RED);
    assert_eq!(c.get(0, 0), WHITE);
    assert_eq!(c.get(0, 1), RED);
    assert_eq!(c.get(1, 2), RED);
    assert_eq!(c.get(2, 1), WHITE);
}

#[test]
fn stroke_rect_draws_the_outline_only() {
    let mut c = Canvas::filled(5, 5, WHITE);
    draw_stroke_rect(&mut c, 0, 0, 5, 5, 1, BLUE);
    assert_eq!(c.get(0, 0), BLUE);
    assert_eq!(c.get(4, 2), BLUE);
    assert_eq!(c.get(2, 4), BLUE);
    assert_eq!(c.get(2, 2), WHITE);
    assert_eq!(c.get(1, 1), WHITE);
    let mut d = Canvas::filled(5, 5, WHITE);
    draw_stroke_rect(&mut d, 0, 0, 5, 5, 2, BLUE);
    assert_eq!(d.get(1, 1), BLUE);
    assert_eq!(d.get(2, 2), WHITE);
}

#[test]
fn colour_rules() {
    assert!(color_close(&(10, 10, 10), &(15, 5, 10), 5));
    assert!(!color_close(&(10, 10, 10), &(15, 5, 10), 4));
    assert_eq!(multiply_colors((255, 128, 0), (128, 255, 200)), (128, 128, 0));
    assert_eq!(id_to_hue(""), 341);
    assert_eq!(id_to_hue("a"), 190);
}

#[test]
fn pixel_diff_counts_channels_over_thirty() {
    let a = row(&[(0, 0, 0), (100, 100, 100), (50, 50, 50)]);
    let b = row(&[(31, 0, 0), (100, 130, 100), (50, 50, 90)]);
    assert_eq!(compute_pixel_diff(&a, &b), 2);
}

#[test]
fn diff_image_layout() {
    let a = row(&[(0, 0, 0), (30, 60, 90)]);
    let b = row(&[(100, 0, 0), (30, 60, 90)]);
    let d = generate_diff_image(&a, &b);
    assert_eq!(d.width, 10);
    assert_eq!(d.height, 1);
    assert_eq!(d.get(0, 0), (0, 0, 0));
    assert_eq!(d.get(2, 0), SEPARATOR);
    assert_eq!(d.get(4, 0), (100, 0, 0));
    assert_eq!(d.get(7, 0), SEPARATOR);
    assert_eq!(d.get(8, 0), HIGHLIGHT);
    assert_eq!(d.get(9, 0), (60, 60, 60));
}

#[test]
fn bounds_validation_classes() {
    let dev = row(&[(200, 0, 0), WHITE, WHITE]);
    let ren = row(&[WHITE, (0, 0, 200), WHITE]);
    let near = validate_bounds(&dev, &ren, 30, 1);
    assert_eq!((near.both, near.agent_only, near.yaml_only, near.neither), (2, 0, 0, 1));
    assert_eq!(near.composite.get(0, 0), (128, 0, 128));
    assert_eq!(near.composite.get(1, 0), (128, 0, 128));
    assert_eq!(near.composite.get(2, 0), WHITE);
    let exact = validate_bounds(&dev, &ren, 30, 0);
    assert_eq!((exact.both, exact.agent_only, exact.yaml_only, exact.neither), (0, 1, 1, 1));
    assert_eq!(exact.composite.get(0, 0), (255, 0, 0));
    assert_eq!(exact.composite.get(1, 0), (0, 0, 255));
    let faint = validate_bounds(&row(&[(40, 20, 20)]), &row(&[WHITE]), 30, 0);
    assert_eq!(faint.neither, 1);
}

#[test]
fn checked_elements_follow_the_viewport() {
    let mut parent = elem("p", "text", b(0, 0, 10, 10));
    parent.children = Some(vec![elem("c", "text", b(1, 1, 2, 2))]);
    let s = schema(
        "ios",
        vec![
            elem("box", "container", b(0, 0, 10, 10)),
            elem("zero", "text", b(0, 0, 0, 10)),
            elem("right", "text", b(390, 0, 10, 10)),
            elem("ok", "button", b(389, 843, 10, 10)),
            parent,
            elem("above", "image", b(0, -1, 10, 10)),
        ],
    );
    assert_eq!(checked_elements(&s), vec![3]);
    let mut s2 = schema("android", vec![elem("edge", "text", b(385, 0, 5, 5))]);
    assert_eq!(checked_elements(&s2), Vec::<usize>::new());
    s2.elements[0].bounds.x = 383;
    assert_eq!(checked_elements(&s2), vec![0]);
    assert!(is_layout("view"));
    assert!(!is_layout("text"));
    assert_eq!(viewport_of_platform("ios"), (390, 844));
    assert_eq!(viewport_of_platform("web"), (384, 832));
    assert_eq!(min_capture_width("ios"), 1170);
    assert_eq!(min_capture_width("android"), 1080);
}

#[test]
fn labels_fall_back_to_content() {
    let mut e = elem("", "text", b(0, 0, 1, 1));
    assert_eq!(element_label(&e), "");
    e.content = Some("Hi".to_string());
    assert_eq!(element_label(&e), "Hi");
    e.id = "x".to_string();
    assert_eq!(element_label(&e), "x");
}

#[test]
fn painting_order_is_a_stable_sort() {
    assert_eq!(z_order(&vec![Some(5), None, Some(0), None]), vec![2, 1, 3, 0]);
    assert_eq!(z_order(&vec![Some(1), None]), vec![0, 1]);
    assert_eq!(z_order(&vec![None, Some(0)]), vec![0, 1]);
    assert_eq!(z_order(&vec![Some(7), Some(7), Some(3)]), vec![2, 0, 1]);
    assert_eq!(z_order(&vec![]), Vec::<usize>::new());
}

#[test]
fn occlusion_sums_later_overlaps() {
    let bs = vec![b(0, 0, 10, 10), b(5, 5, 10, 10), b(0, 0, 2, 2), b(20, 20, 5, 5)];
    assert_eq!(occluded_area(&bs, 0), 29);
    assert_eq!(occluded_area(&bs, 1), 0);
    assert_eq!(occluded_area(&bs, 3), 0);
    assert_eq!(box_area(&bs[1]), 100);
}

#[test]
fn painting_layers() {
    let layers = vec![
        Layer { x: 0, y: 0, w: 4, h: 4, color: RED },
        Layer { x: 1, y: 1, w: 2, h: 2, color: BLUE },
    ];
    let fill = paint_layers(4, 4, &layers, &vec![0, 1], true, 1);
    assert_eq!(fill.get(0, 0), RED);
    assert_eq!(fill.get(1, 1), BLUE);
    let stroke = paint_layers(4, 4, &layers, &vec![0, 1], false, 1);
    assert_eq!(stroke.get(0, 0), RED);
    assert_eq!(stroke.get(2, 2), BLUE);
    assert_eq!(stroke.get(3, 3), RED);
    let covered = paint_layers(4, 4, &layers, &vec![1, 0], false, 1);
    assert_eq!(covered.get(1, 1), WHITE);
    assert_eq!(covered.get(3, 0), RED);
    let empty = paint_layers(2, 1, &layers, &vec![], true, 1);
    assert_eq!(empty.get(1, 0), WHITE);
}

#[test]
fn difference_composite() {
    let d = difference(&row(&[(10, 200, 30)]), &row(&[(20, 100, 30)]));
    assert_eq!(d.get(0, 0), (10, 100, 0));
}

#[test]
fn sampling_an_element() {
    let dc = (0, 200, 0);
    let rc = (200, 0, 200);
    let dev = Canvas::filled(4, 4, dc);
    let ren = Canvas::filled(4, 4, rc);
    let l = Layer { x: 0, y: 0, w: 4, h: 4, color: rc };
    assert_eq!(fill_samples(&dev, &ren, &l, &dc, 10), (4, 4));
    let off = Layer { x: -1, y: -1, w: 4, h: 4, color: rc };
    assert_eq!(fill_samples(&dev, &ren, &off, &dc, 10), (1, 1));
    assert_eq!(stroke_samples(&dev, &ren, &l, &dc, 1, 10), (7, 7));
    let wrong = Layer { x: 0, y: 0, w: 4, h: 4, color: dc };
    assert_eq!(stroke_samples(&dev, &ren, &wrong, &dc, 1, 10), (7, 0));
}

#[test]
fn boxes_on_a_picture() {
    assert_eq!(clip_box(-1, 0, 5, 5, 10, 10), None);
    assert_eq!(clip_box(2, 3, 10, 10, 5, 5), Some((2, 3, 3, 2)));
    assert_eq!(clip_box(2, 3, 0, 10, 5, 5), None);
    assert_eq!(clip_box(5, 0, 1, 1, 5, 5), None);
    assert_eq!(label_plate(3, 0, 0, 100, 50, 10), (18, 10));
    assert_eq!(label_plate(30, 0, 0, 100, 500, 100), (100, 14));
    assert_eq!(label_plate(3, 60, 0, 100, 50, 100), (0, 14));
    assert_eq!(default_safe_top("ios"), 47);
    assert_eq!(default_safe_top("android"), 0);
    let s = schema("ios", vec![elem("c", "container", b(0, 0, 500, 10)), elem("t", "text", b(10, 10, 100, 20))]);
    assert_eq!(max_right_edge(&s, true), 110);
    assert_eq!(max_right_edge(&s, false), 500);
    let neg = schema("ios", vec![elem("n", "text", b(-50, 0, 10, 10))]);
    assert_eq!(max_right_edge(&neg, false), 0);
}

#[test]
fn bounds_picture_draws_leaves_and_children() {
    let mut parent = elem("p", "text", b(1, 2, 3, 4));
    parent.children = Some(vec![elem("c", "text", b(5, 6, 7, 8))]);
    let s = schema(
        "ios",
        vec![
            elem("box", "container", b(0, 0, 10, 10)),
            elem("up", "text", b(0, -5, 10, 10)),
            elem("low", "button", b(0, 900, 10, 10)),
            parent,
        ],
    );
    assert_eq!(bounds_picture_boxes(&s, 844), vec![b(1, 2, 3, 4), b(5, 6, 7, 8)]);
}

#[test]
fn shrinking_text() {
    assert!(needs_shrink(100, 100, 20, 10, 13));
    assert!(!needs_shrink(5, 100, 20, 10, 13));
    assert!(!needs_shrink(100, 0, 20, 10, 13));
    assert!(!needs_shrink(100, 100, 60, 10, 13));
}

#[test]
fn pictures_side_by_side() {
    let a = Canvas::filled(2, 1, RED);
    let b = Canvas::filled(1, 3, BLUE);
    let c = side_by_side(&vec![a, b], 2);
    assert_eq!((c.width, c.height), (5, 3));
    assert_eq!(c.get(1, 0), RED);
    assert_eq!(c.get(1, 1), STRIP_BACKGROUND);
    assert_eq!(c.get(2, 0), STRIP_BACKGROUND);
    assert_eq!(c.get(4, 2), BLUE);
    let mut third = Canvas::filled(2, 2, WHITE);
    third.put(1, 1, RED);
    let three = side_by_side(&vec![Canvas::filled(1, 1, BLUE), Canvas::filled(1, 1, BLUE), third], 3);
    assert_eq!(three.width, 10);
    assert_eq!(three.get(9, 1), RED);
    assert_eq!(three.get(8, 1), WHITE);
    let one = side_by_side(&vec![Canvas::filled(3, 2, BLUE)], 7);
    assert_eq!((one.width, one.height), (3, 2));
}

#[test]
fn similarity_sums() {
    let a = vec![vec![1u8, 2], vec![3, 4]];
    let b = vec![vec![0u8, 1], vec![1, 0]];
    let g = gray_stats(&a, &b, 2, 2);
    assert_eq!((g.n, g.sum_a, g.sum_b, g.sum_aa, g.sum_bb, g.sum_ab), (4, 10, 2, 30, 2, 5));
    let e = gray_stats(&vec![], &vec![], 0, 0);
    assert_eq!((e.n, e.sum_a), (0, 0));
}

#[test]
fn screen_blending() {
    let shot = row(&[(100, 0, 255)]);
    let comp = row(&[(50, 0, 10)]);
    assert_eq!(screen_blend(&shot, &comp).get(0, 0), (131, 0, 255));
}
