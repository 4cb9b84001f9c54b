use editorium::binding::Binding;
use editorium::editor::is_whitespace;
use editorium::project::{NodeKind, ProjectTree};
use editorium::raster::{clip_run, draw_rect, Canvas, Offset};
use editorium::tab::{Tab, TabView};
use editorium::view::RenderCache;
use std::path::PathBuf;

#[test]
fn opaque_rect_overwrites_and_swaps_red_and_blue() {
    let mut buf = vec![0u32; 4 * 3];
    draw_rect(&mut buf, Canvas { w: 4, h: 3 }, Canvas { w: 2, h: 2 }, Offset { x: 1, y: 1 }, 0xFF112233);
    let c = 0xFF332211;
    assert_eq!(buf, vec![0, 0, 0, 0, 0, c, c, 0, 0, c, c, 0]);
}

#[test]
fn rect_is_clipped_to_the_canvas() {
    let mut buf = vec![7u32; 3 * 2];
    draw_rect(&mut buf, Canvas { w: 3, h: 2 }, Canvas { w: 5, h: 5 }, Offset { x: -1, y: 1 }, 0xFF0000FF);
    let c = 0xFFFF0000;
    assert_eq!(buf, vec![7, 7, 7, c, c, c]);
}

#[test]
fn transparent_color_draws_nothing() {
    let mut buf = vec![5u32; 4];
    draw_rect(&mut buf, Canvas { w: 2, h: 2 }, Canvas { w: 2, h: 2 }, Offset { x: 0, y: 0 }, 0x00FFFFFF);
    assert_eq!(buf, vec![5, 5, 5, 5]);
}

#[test]
fn translucent_color_blends() {
    let mut buf = vec![0u32, 0xFF000000];
    draw_rect(&mut buf, Canvas { w: 2, h: 1 }, Canvas { w: 2, h: 1 }, Offset { x: 0, y: 0 }, 0x80FF0000);
    // an empty pixel takes the color as it is
    assert_eq!(buf[0], 0x800000FF);
    // over opaque black: red 0x80*0xFF>>8 = 0x7F; alpha and green come from
    // 0x7F*0x00FF0000 + 0x80*0x01000000 = 0xFE810000, masked to 0xFE000000
    assert_eq!(buf[1], 0xFE00007F);
}

#[test]
fn runs_left_of_the_scrolled_view_are_cut() {
    assert_eq!(clip_run(50, 10, 0, 40), Some((90, 10)));
    assert_eq!(clip_run(50, 10, 55, 40), Some((40, 5)));
    assert_eq!(clip_run(50, 10, 60, 40), None);
    assert_eq!(clip_run(50, 10, 20, 40), Some((70, 10)));
}

fn tab_with(name: &str) -> Tab {
    let mut t = Tab::new();
    t.open_file(PathBuf::from(format!("/work/{}", name)), "text\n");
    t
}

#[test]
fn closing_tabs_moves_the_shown_one() {
    let mut v = TabView::new();
    assert_eq!(v.active(), None);
    v.insert(tab_with("a.rs"));
    v.insert(tab_with("b.rs"));
    let last = v.insert(tab_with("c.rs"));
    assert_eq!(last, 2);
    v.activate(2);
    v.remove(0);
    assert_eq!(v.active(), Some(1));
    assert_eq!(v.tab(1).unwrap().get_name(), "c.rs");
    v.activate(0);
    v.remove(1);
    assert_eq!(v.active(), Some(0));
    v.remove(0);
    assert_eq!(v.active(), None);
    assert_eq!(v.len(), 0);
    v.remove(5);
    assert_eq!(v.len(), 0);
}

#[test]
fn activating_a_missing_tab_changes_nothing() {
    let mut v = TabView::new();
    v.insert(Tab::new());
    v.activate(0);
    v.activate(3);
    assert_eq!(v.active(), Some(0));
}

#[test]
fn tab_position_name_and_save_text() {
    let mut v = TabView::new();
    v.insert(Tab::new());
    v.insert(tab_with("main.rs"));
    assert_eq!(v.position(&PathBuf::from("/work/main.rs")), Some(1));
    assert_eq!(v.position(&PathBuf::from("/work/other.rs")), None);
    assert_eq!(v.tab(0).unwrap().get_name(), "New Tab");
    assert_eq!(v.tab(0).unwrap().save_text(), None);
    let t = v.tab_mut(1).unwrap();
    t.editor.action(Binding::InsertChar('x'), None);
    assert_eq!(v.tab(1).unwrap().save_text(), Some("xtext\n".to_string()));
    assert!(v.tab_mut(9).is_none());
}

#[test]
fn closing_a_directory_removes_its_deeper_entries() {
    let mut t = ProjectTree::new();
    t.insert(PathBuf::from("/p"), true, 0, 0);
    t.insert(PathBuf::from("/p/a"), true, 1, 1);
    t.insert(PathBuf::from("/p/a/x"), false, 2, 2);
    t.insert(PathBuf::from("/p/b"), false, 3, 1);
    t.collapse_after(1, 1);
    assert_eq!(t.position(2), None);
    assert_eq!(t.position(3), Some(2));
    t.collapse_after(0, 0);
    assert!(t.node_at(1).is_none());
    t.collapse_after(7, 0);
    assert_eq!(t.position(0), Some(0));
    assert_eq!(t.next_id(), 4);
}

#[test]
fn every_change_moves_the_revision() {
    let mut e = editorium::editor::Editor::new();
    let r0 = e.revision();
    e.action(Binding::InsertChar('a'), None);
    let r1 = e.revision();
    assert_ne!(r0, r1);
    e.undo();
    assert_ne!(e.revision(), r1);
    let r2 = e.revision();
    e.load_text("x");
    assert_ne!(e.revision(), r2);
}

#[test]
fn render_cache_is_current_until_something_changes() {
    let mut c = RenderCache::new();
    assert!(c.needs_redraw(3));
    c.mark_drawn(3);
    assert!(!c.needs_redraw(3));
    assert!(c.needs_redraw(4));
    c.invalidate();
    assert!(c.needs_redraw(3));
}

#[test]
fn directories_are_listed_before_files() {
    let flags = vec![false, true, false, true, true];
    assert_eq!(editorium::project::dirs_first(&flags), vec![1, 3, 4, 0, 2]);
    assert_eq!(editorium::project::dirs_first(&Vec::new()), Vec::<usize>::new());
}

#[test]
fn toggling_a_directory_flips_it_and_files_stay() {
    let mut t = ProjectTree::new();
    t.insert(PathBuf::from("/p/dir"), true, 0, 0);
    t.insert(PathBuf::from("/p/file"), false, 1, 0);
    assert_eq!(t.toggle_directory(0), Some(NodeKind::Directory { open: true }));
    assert_eq!(t.toggle_directory(0), Some(NodeKind::Directory { open: false }));
    assert_eq!(t.toggle_directory(1), Some(NodeKind::File));
    assert_eq!(t.toggle_directory(9), None);
    assert_eq!(t.node_at(0).unwrap().name, "dir");
}

#[test]
fn collapsing_keeps_the_other_nodes() {
    let mut t = ProjectTree::new();
    t.insert(PathBuf::from("/p"), true, 0, 0);
    t.insert(PathBuf::from("/p/a"), false, 1, 1);
    t.insert(PathBuf::from("/q"), false, 2, 0);
    t.collapse_after(0, 0);
    assert!(t.node_mut(1).is_none());
    assert_eq!(t.node_at(1).unwrap().name, "q");
    assert_eq!(t.node_at(0).unwrap().name, "p");
}

#[test]
fn rect_leaves_pixels_past_the_canvas() {
    let mut buf = vec![1u32; 5];
    draw_rect(&mut buf, Canvas { w: 2, h: 2 }, Canvas { w: 9, h: 9 }, Offset { x: 0, y: 0 }, 0xFF000000);
    assert_eq!(buf, vec![0xFF000000, 0xFF000000, 0xFF000000, 0xFF000000, 1]);
}

#[test]
fn opening_a_file_resets_cursor_and_selection() {
    let mut t = Tab::new();
    t.editor.action(Binding::InsertChar('z'), None);
    t.editor.action(Binding::SelectAll, None);
    t.open_file(PathBuf::from("/w/x.txt"), "hello\r\nworld");
    assert_eq!(t.editor.cursor(), editorium::text::Cursor::new(0, 0));
    assert_eq!(t.editor.selection(), None);
    assert_eq!(t.save_text(), Some("hello\r\nworld".to_string()));
    assert!(!t.editor.can_undo());
}

#[test]
fn whitespace_classification() {
    for c in [' ', '\t', '\u{a0}', '\u{2003}', '\u{3000}', '\u{85}'] {
        assert!(is_whitespace(c));
        assert_eq!(is_whitespace(c), c.is_whitespace());
    }
    for c in ['a', '_', '\u{200b}', '0'] {
        assert!(!is_whitespace(c));
        assert_eq!(is_whitespace(c), c.is_whitespace());
    }
}
