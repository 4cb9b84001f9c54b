use editorium::click::{next_click_kind, ClickKind, ClickRecord, ClickTracker};
use editorium::font::{arrow_dowwn, arrow_left, caret_down, caret_right};
use editorium::project::{Node, NodeKind, Project, ProjectTree};
use editorium::text::Cursor;
use editorium::view::{
    accumulate_scroll, gutter_width, horizontal_scroll, line_number_chars, pixel_lines,
    position_at, text_point, wheel_lines,
};
use std::path::PathBuf;

#[test]
fn rapid_clicks_cycle_through_kinds() {
    let mut t = ClickTracker::new();
    let p = Cursor::new(2, 3);
    assert_eq!(t.press(1000, p), ClickKind::Single);
    assert_eq!(t.press(1200, p), ClickKind::Double);
    assert_eq!(t.press(1400, p), ClickKind::Triple);
    assert_eq!(t.press(1600, p), ClickKind::Single);
}

#[test]
fn slow_or_moved_click_starts_over() {
    let last = ClickRecord { kind: ClickKind::Double, time_ms: 1000, pos: Cursor::new(0, 0) };
    assert_eq!(next_click_kind(Some(last), 1499, Cursor::new(0, 0)), ClickKind::Triple);
    assert_eq!(next_click_kind(Some(last), 1500, Cursor::new(0, 0)), ClickKind::Single);
    assert_eq!(next_click_kind(Some(last), 1100, Cursor::new(0, 1)), ClickKind::Single);
    assert_eq!(next_click_kind(Some(last), 900, Cursor::new(0, 0)), ClickKind::Single);
    assert_eq!(next_click_kind(None, 5, Cursor::new(0, 0)), ClickKind::Single);
}

#[test]
fn icon_code_points() {
    assert_eq!(arrow_dowwn(), '\u{f0d7}');
    assert_eq!(arrow_left(), '\u{f0da}');
    assert_eq!(caret_down(), '\u{f107}');
    assert_eq!(caret_right(), '\u{f105}');
}

#[test]
fn gutter_grows_with_line_count_digits() {
    assert_eq!(line_number_chars(0), 1);
    assert_eq!(line_number_chars(9), 1);
    assert_eq!(line_number_chars(10), 2);
    assert_eq!(line_number_chars(12345), 5);
    assert_eq!(line_number_chars(usize::MAX), 20);
    assert_eq!(gutter_width(120, 8), Some(64));
    assert_eq!(gutter_width(1, u32::MAX), None);
}

#[test]
fn hit_testing_skips_gutter_and_adds_scroll() {
    assert_eq!(text_point(100, 50, 5, 5, 40, 500, 300, 7), Some((62, 45)));
    assert_eq!(text_point(30, 50, 5, 5, 40, 500, 300, 0), None);
    assert_eq!(text_point(100, 2, 5, 5, 40, 500, 300, 0), None);
    assert_eq!(text_point(1000, 50, 5, 5, 40, 500, 300, 0), None);
    assert_eq!(position_at(62, 45, 10, 20, 8), Cursor::new(12, 7));
}

#[test]
fn wheel_scroll_is_scaled_and_remainders_carried() {
    assert_eq!(wheel_lines(0), 0);
    assert_eq!(wheel_lines(100), -1000);
    assert_eq!(wheel_lines(1000), -4000);
    assert_eq!(wheel_lines(-100), 1000);
    assert_eq!(pixel_lines(-2), 500);
    assert_eq!(accumulate_scroll(0, 500), (0, 500));
    assert_eq!(accumulate_scroll(500, 700), (1, 200));
    assert_eq!(accumulate_scroll(-300, -2800), (-3, -100));
}

#[test]
fn horizontal_scroll_is_clamped() {
    assert_eq!(horizontal_scroll(10, 20, 500, 300), 30);
    assert_eq!(horizontal_scroll(190, 50, 500, 300), 200);
    assert_eq!(horizontal_scroll(10, -50, 500, 300), 0);
    assert_eq!(horizontal_scroll(0, 50, 100, 300), 0);
}

#[test]
fn project_is_named_after_its_directory() {
    let p = Project::new(PathBuf::from("/home/user/code/editor"));
    assert_eq!(p.name, "editor");
    let root = Project::new(PathBuf::from("/"));
    assert_eq!(root.name, "");
}

#[test]
fn tree_insert_position_remove() {
    let mut t = ProjectTree::new();
    t.insert(PathBuf::from("/p/src"), true, 0, 0);
    t.insert(PathBuf::from("/p/README.md"), false, 9, 0);
    t.insert(PathBuf::from("/p/src/lib.rs"), false, 1, 1);
    assert_eq!(t.position(0), Some(0));
    assert_eq!(t.position(2), Some(1));
    assert_eq!(t.position(1), Some(2));
    let n = t.node_at(1).unwrap();
    assert_eq!(n.name, "lib.rs");
    assert_eq!(n.indent, 1);
    assert!(matches!(n.kind, NodeKind::File));
    assert!(matches!(t.node_at(0).unwrap().kind, NodeKind::Directory { open: false }));
    t.remove(2);
    assert_eq!(t.position(2), None);
    assert_eq!(t.position(1), Some(1));
    assert!(t.node_at(2).is_none());
    if let Some(node) = t.node_mut(0) {
        node.kind = NodeKind::Directory { open: true };
    }
    assert!(matches!(t.node_at(0).unwrap().kind, NodeKind::Directory { open: true }));
    assert!(t.node_mut(7).is_none());
    t.clear();
    assert!(t.node_at(0).is_none());
    t.insert(PathBuf::from("/q"), true, 0, 0);
    assert_eq!(t.position(0), Some(0));
}

#[test]
fn node_for_file_and_directory() {
    let f = Node::new(PathBuf::from("/a/b.txt"), 3, 2, false);
    assert_eq!(f.name, "b.txt");
    assert_eq!(f.id, 3);
    assert!(matches!(f.kind, NodeKind::File));
    let d = Node::new(PathBuf::from("/a/dir"), 4, 0, true);
    assert!(matches!(d.kind, NodeKind::Directory { open: false }));
}

#[test]
fn io_error_message() {
    let e = editorium::project::Error::from(std::io::Error::new(std::io::ErrorKind::NotFound, "gone"));
    assert_eq!(e.message(), "io error: gone");
}
