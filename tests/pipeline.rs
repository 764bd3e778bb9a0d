use ahk_map_art::compile::{compile, compile_curated, document_ok, CompileError};
use ahk_map_art::geometry::{gen_test_polygons, Config, Point};

fn pt(x: i64, y: i64) -> Point {
    Point { x: x * 1000, y: y * 1000 }
}

fn plain_config() -> Config {
    Config::default()
}

const SCENARIO_A: &str = "#SingleInstance Force
CoordMode, Mouse, Screen
SetDefaultMouseSpeed, 1
Escape::
ExitApp
Return
^b::Box()
Box() {
    Sleep, 3000
    Send {Ctrl down}
    MouseMove, 0, 0
    Sleep, 200
    Send {lbutton down}
    MouseMove, 0, 0
    Sleep, 200
    MouseMove, 110, 0
    Sleep, 200
    MouseMove, 110, 0
    Sleep, 200
    MouseMove, 0, 0
    Sleep, 200
    Send {lbutton up}
    Send {Ctrl up}
    return
}
^z::
Toggle := !Toggle
Loop
{
    If (!Toggle)
        Break
    Sleep, 3000
    Send {Ctrl down}
    MouseMove, 0, 0
    Sleep, 40
    Sleep, 750
    Send {lbutton down}
    MouseMove, 10, 0
    Send {Ctrl up}
    Send {lbutton up}
    Sleep, 40
    
    Send {Ctrl down}
    MouseMove, 100, 0
    Sleep, 40
    Send {lbutton down}
    MouseMove, 110, 0
    Send {Ctrl up}
    Send {lbutton up}
    Sleep, 40
    
    Send {lbutton up}
    Exit, 0
}
";

#[test]
fn scenario_a_two_strokes() {
    let doc = vec![vec![pt(0, 0), pt(10, 0)], vec![pt(100, 0), pt(110, 0)]];
    let out = compile(doc, &plain_config()).unwrap();
    assert_eq!(out.script, SCENARIO_A);
    assert_eq!(out.stats.width, 110_000);
    assert_eq!(out.stats.height, 0);
    assert_eq!(out.stats.line_count, 2);
    assert_eq!(out.stats.point_count, 4);
    assert_eq!(out.stats.longest_line, 2);
    assert_eq!(out.stats.pause_ms, 7910);
    assert_eq!(out.stats.draw_ms, 270);
}

fn closed_eleven() -> Vec<Point> {
    vec![
        pt(0, 0),
        pt(10, 0),
        pt(20, 0),
        pt(30, 0),
        pt(30, 10),
        pt(30, 20),
        pt(30, 30),
        pt(20, 30),
        pt(10, 30),
        pt(0, 30),
        pt(0, 0),
    ]
}

#[test]
fn scenario_b_closed_polyline_kept() {
    let mut config = plain_config();
    config.filter_specks = true;
    let out = compile(vec![closed_eleven()], &config).unwrap();
    assert_eq!(out.stats.line_count, 1);
    assert_eq!(out.stats.point_count, 11);
    // one modifier press for the calibration box, one for the only stroke
    assert_eq!(out.script.matches("Send {Ctrl down}").count(), 2);
}

#[test]
fn scenario_c_speck_removed() {
    let mut config = plain_config();
    config.filter_specks = true;
    let doc = vec![vec![pt(0, 0), pt(2, 1), pt(5, 0)]];
    assert!(matches!(compile(doc, &config), Err(CompileError::EmptyDocument)));
}

#[test]
fn speck_kept_without_filter() {
    let doc = vec![vec![pt(0, 0), pt(2, 1), pt(5, 0)]];
    let out = compile(doc, &plain_config()).unwrap();
    assert_eq!(out.stats.line_count, 1);
}

#[test]
fn scenario_d_server_mode() {
    let doc = vec![vec![pt(100, 100), pt(120, 100), pt(125, 100)]];
    let plain = compile(doc.clone(), &plain_config()).unwrap();
    let mut config = plain_config();
    config.server_mode = true;
    let server = compile(doc, &config).unwrap();
    let expected = plain
        .script
        .replace(
            "    Sleep, 40\n    Send {lbutton down}\n",
            "    Sleep, 40\n    Sleep, 150\n    Send {lbutton down}\n    Sleep, 150\n",
        )
        .replace("    Sleep, 40\n    \n", "    Sleep, 200\n    \n");
    assert_eq!(server.script, expected);
    assert_eq!(server.script.lines().count(), plain.script.lines().count() + 2);
    assert_eq!(server.stats.pause_ms, plain.stats.pause_ms + 300 + 160);
    assert_eq!(server.stats.draw_ms, plain.stats.draw_ms);
}

#[test]
fn long_segment_gets_settle_wait() {
    let doc = vec![vec![pt(100, 100), pt(120, 100), pt(125, 100)]];
    let out = compile(doc, &plain_config()).unwrap();
    let stroke = out.script.split("    Sleep, 3000\n").nth(2).unwrap();
    assert!(stroke.starts_with(
        "    Send {Ctrl down}\n    MouseMove, 100, 100\n    Sleep, 40\n    Send {lbutton down}\n    MouseMove, 120, 100\n    Sleep, 40\n    MouseMove, 125, 100\n    Send {Ctrl up}\n"
    ));
}

#[test]
fn empty_document_fails() {
    assert!(matches!(compile(vec![], &plain_config()), Err(CompileError::EmptyDocument)));
    assert!(matches!(compile_curated(&vec![], &plain_config()), Err(CompileError::EmptyDocument)));
}

#[test]
fn scale_and_offset_apply() {
    let mut config = plain_config();
    config.scale = 2500;
    config.x_offset = 1000;
    config.y_offset = -500;
    let doc = vec![vec![pt(0, 0), pt(4, 2)]];
    let out = compile(doc, &config).unwrap();
    assert!(out.script.contains("    MouseMove, 1, -0.5\n"));
    assert!(out.script.contains("    MouseMove, 11, 4.5\n"));
    assert_eq!(out.stats.width, 10_000);
    assert_eq!(out.stats.height, 5_000);
}

#[test]
fn proximity_threshold_is_configurable() {
    let doc = vec![vec![pt(100, 0), pt(100, 1)]];
    let mut config = plain_config();
    let near = compile(doc.clone(), &config).unwrap();
    assert!(!near.script.contains("Sleep, 750"));
    config.proximity = 250_000;
    let far = compile(doc, &config).unwrap();
    assert!(far.script.contains("Sleep, 750"));
}

#[test]
fn document_validation() {
    assert!(document_ok(&vec![vec![pt(1, 2)]]));
    assert!(!document_ok(&vec![vec![]]));
    assert!(!document_ok(&vec![vec![Point { x: i64::MAX, y: 0 }]]));
    assert!(Config::default().is_valid());
    let mut config = Config::default();
    config.scale = i64::MAX;
    assert!(!config.is_valid());
}

#[test]
fn test_polygons_compile_in_order() {
    let doc = gen_test_polygons();
    assert_eq!(doc.len(), 49);
    assert_eq!(doc[0], vec![Point { x: 500, y: 0 }, Point { x: 500, y: 1000 }]);
    assert_eq!(doc[48], vec![Point { x: 48_500, y: 0 }, Point { x: 48_500, y: 1000 }]);
    let out = compile_curated(&doc, &plain_config()).unwrap();
    assert_eq!(out.stats.line_count, 49);
    assert_eq!(out.stats.point_count, 98);
    assert_eq!(out.stats.width, 48_000);
    assert_eq!(out.stats.height, 1_000);
    let first = out.script.find("MouseMove, 0.5, 0\n    Sleep, 40").unwrap();
    let second = out.script.find("MouseMove, 1.5, 0\n    Sleep, 40").unwrap();
    assert!(first < second);
}
