use ahk_map_art::curate::{filter_specks, interleave, sort_polylines};
use ahk_map_art::geometry::{bounds, normalize, Bounds, Config, GeometryError, Point};
use ahk_map_art::script::AhkCode;

fn pt(x: i64, y: i64) -> Point {
    Point { x, y }
}

#[test]
fn identity_configuration_keeps_points() {
    let doc = vec![vec![pt(1, -2), pt(12_345, 678)], vec![pt(-999, 0)]];
    assert_eq!(normalize(&doc, &Config::default()), doc);
}

#[test]
fn scaling_rounds_down() {
    let mut config = Config::default();
    config.scale = 1500;
    let doc = vec![vec![pt(1, -1)]];
    assert_eq!(normalize(&doc, &config), vec![vec![pt(1, -2)]]);
}

#[test]
fn bounds_of_points() {
    let doc = vec![vec![pt(3, 7), pt(-2, 7)], vec![pt(5, 7)]];
    let b = bounds(&doc).unwrap();
    assert_eq!(b, Bounds { min_x: -2, max_x: 5, min_y: 7, max_y: 7 });
    assert!(b.max_x - b.min_x > 0);
    assert_eq!(b.max_y - b.min_y, 0);
}

#[test]
fn bounds_of_nothing_fail() {
    assert_eq!(bounds(&vec![]), Err(GeometryError::EmptyGeometry));
    assert_eq!(bounds(&vec![vec![], vec![]]), Err(GeometryError::EmptyGeometry));
}

#[test]
fn interleave_small_sizes() {
    assert_eq!(interleave(Vec::<u32>::new()), Vec::<u32>::new());
    assert_eq!(interleave(vec![1]), vec![1]);
    assert_eq!(interleave(vec![1, 2]), vec![1, 2]);
    assert_eq!(interleave(vec![1, 2, 3]), vec![1, 3, 2]);
    assert_eq!(interleave(vec![1, 2, 3, 4]), vec![1, 3, 2, 4]);
    assert_eq!(interleave(vec![1, 2, 3, 4, 5]), vec![1, 4, 2, 5, 3]);
    assert_eq!(interleave(vec![1, 2, 3, 4, 5, 6]), vec![1, 4, 2, 5, 3, 6]);
}

#[test]
fn interleave_keeps_every_element_once() {
    let input: Vec<u32> = (0..17).collect();
    let mut out = interleave(input.clone());
    assert_eq!(out.len(), input.len());
    out.sort();
    assert_eq!(out, input);
}

#[test]
fn sort_moves_by_endpoint_keys() {
    let a = vec![pt(50_000, 0), pt(60_000, 0)];
    let b = vec![pt(0, 0), pt(5_000, 0)];
    let mut doc = vec![a.clone(), b.clone()];
    sort_polylines(&mut doc);
    assert_eq!(doc, vec![b.clone(), a.clone()]);
    let mut sorted = vec![b.clone(), a.clone()];
    sort_polylines(&mut sorted);
    assert_eq!(sorted, vec![b, a]);
}

#[test]
fn speck_filter_is_idempotent() {
    let speck = vec![pt(0, 0), pt(5_000, 5_000), pt(1_000, 0)];
    let long_open = vec![pt(0, 0), pt(30_000, 0)];
    let many: Vec<Point> = (0..10).map(|i| pt(i, 0)).collect();
    let edge = vec![pt(0, 0), pt(20_000, 0)];
    let doc = vec![speck, long_open.clone(), many.clone(), edge.clone()];
    let once = filter_specks(doc);
    assert_eq!(once, vec![long_open, many, edge]);
    let twice = filter_specks(once.clone());
    assert_eq!(twice, once);
}

#[test]
fn totals_count_moves_and_waits() {
    let mut code = AhkCode::new(false, 100);
    code.add_box(1234, pt(-250, 1_005), pt(12_500, 3_000));
    let (text, draw_ms, pause_ms) = code.build();
    assert_eq!(draw_ms, 5 * 30);
    assert_eq!(pause_ms, 1234 + 5 * 200);
    assert!(text.starts_with("CoordMode, Mouse, Screen\nSetDefaultMouseSpeed, 100\n^b::Box()\nBox() {\n    Sleep, 1234\n"));
    assert!(text.contains("    MouseMove, -0.25, 1.005\n"));
    assert!(text.contains("    MouseMove, 12.5, 3\n"));
    assert!(text.ends_with(
        "    MouseMove, -0.25, 1.005\n    Sleep, 200\n    Send {lbutton up}\n    Send {Ctrl up}\n    return\n}\n"
    ));
}

#[test]
fn exit_binding_lines() {
    let mut code = AhkCode::new(true, 0);
    code.add_exit();
    let (text, draw_ms, pause_ms) = code.build();
    assert_eq!(
        text,
        "#SingleInstance Force\nCoordMode, Mouse, Screen\nSetDefaultMouseSpeed, 0\nEscape::\nExitApp\nReturn\n"
    );
    assert_eq!(draw_ms, 0);
    assert_eq!(pause_ms, 0);
}

#[test]
fn stroke_returns_last_point() {
    let mut code = AhkCode::new(false, 1);
    let line = vec![pt(0, 0), pt(40_000, 0), pt(40_000, 1)];
    let mut config = Config::default();
    config.pause_ms = 5;
    let last = code.add_stroke(&line, pt(0, 0), &config);
    assert_eq!(last, pt(40_000, 1));
    let (text, draw_ms, pause_ms) = code.build();
    assert_eq!(draw_ms, 90);
    assert_eq!(pause_ms, 40 + 5 + 40 + 40);
    assert!(text.ends_with(
        "Send {Ctrl down}\nMouseMove, 0, 0\nSleep, 40\nSleep, 5\nSend {lbutton down}\nMouseMove, 40, 0\nSleep, 40\nMouseMove, 40, 0.001\nSend {Ctrl up}\nSend {lbutton up}\nSleep, 40\n\n"
    ));
}

#[test]
fn draw_loop_of_empty_document() {
    let mut code = AhkCode::new(false, 1);
    code.add_draw_loop(&vec![], &Config::default());
    let (text, _, pause_ms) = code.build();
    assert!(text.ends_with("Loop\n{\n    If (!Toggle)\n        Break\n    Sleep, 3000\n    Send {lbutton up}\n    Exit, 0\n}\n"));
    assert_eq!(pause_ms, 3000);
}
