use editorium::binding::{Binding, BindingMotion};
use editorium::click::ClickKind;
use editorium::editor::Editor;
use editorium::text::{Cursor, LineEnding};

fn loaded(text: &str) -> Editor {
    let mut e = Editor::new();
    e.load_text(text);
    e
}

#[test]
fn cut_two_word_selections_then_undo() {
    let mut e = loaded("abc\ndef\nghi\n");
    assert_eq!(e.cursor(), Cursor::new(0, 0));
    e.action(Binding::Select(BindingMotion::WordRight), None);
    e.action(Binding::Select(BindingMotion::WordRight), None);
    let clip = e.action(Binding::Cut, None);
    assert_eq!(e.serialize(), "\ndef\nghi\n");
    assert_eq!(clip, Some("abc".to_string()));
    e.action(Binding::Undo, None);
    assert_eq!(e.serialize(), "abc\ndef\nghi\n");
}

#[test]
fn typed_characters_are_undone_together() {
    let mut e = Editor::new();
    e.action(Binding::InsertChar('a'), None);
    e.action(Binding::InsertChar('b'), None);
    assert_eq!(e.serialize(), "ab");
    e.action(Binding::Undo, None);
    assert_eq!(e.serialize(), "");
}

#[test]
fn save_load_round_trip_keeps_mixed_endings() {
    let text = "one\r\ntwo\nthree\rfour\n\rfive";
    let e = loaded(text);
    assert_eq!(e.line_count(), 5);
    assert_eq!(e.line_ending(0), Some(LineEnding::CrLf));
    assert_eq!(e.line_ending(1), Some(LineEnding::Lf));
    assert_eq!(e.line_ending(2), Some(LineEnding::Cr));
    assert_eq!(e.line_ending(3), Some(LineEnding::LfCr));
    assert_eq!(e.line_ending(4), Some(LineEnding::NoEnding));
    assert_eq!(e.line_text(4), Some("five".to_string()));
    let saved = e.serialize();
    assert_eq!(saved, text);
    let again = loaded(&saved);
    assert_eq!(again.serialize(), text);
}

#[test]
fn empty_text_is_one_empty_line() {
    let e = loaded("");
    assert_eq!(e.line_count(), 1);
    assert_eq!(e.line_text(0), Some(String::new()));
    assert_eq!(e.line_text(1), None);
    assert_eq!(e.serialize(), "");
}

#[test]
fn trailing_newline_gives_a_last_empty_line() {
    let e = loaded("abc\n");
    assert_eq!(e.line_count(), 2);
    assert_eq!(e.line_text(1), Some(String::new()));
    assert_eq!(e.line_ending(1), Some(LineEnding::NoEnding));
}

#[test]
fn undo_all_then_redo_all() {
    let mut e = loaded("x\n");
    e.action(Binding::Move(BindingMotion::End), None);
    e.action(Binding::Enter, None);
    e.action(Binding::InsertChar('y'), None);
    e.action(Binding::Tab, None);
    e.action(Binding::InsertChar('z'), None);
    let after = e.serialize();
    assert_eq!(after, "x\ny    z\n");
    for _ in 0..4 {
        e.action(Binding::Undo, None);
    }
    assert_eq!(e.serialize(), "x\n");
    for _ in 0..4 {
        e.action(Binding::Redo, None);
    }
    assert_eq!(e.serialize(), after);
}

#[test]
fn new_edit_after_undo_drops_redo() {
    let mut e = loaded("abc");
    e.action(Binding::Move(BindingMotion::End), None);
    e.action(Binding::Enter, None);
    e.action(Binding::Undo, None);
    assert!(e.can_redo());
    e.action(Binding::Tab, None);
    assert!(!e.can_redo());
    let before = e.serialize();
    e.action(Binding::Redo, None);
    assert_eq!(e.serialize(), before);
}

#[test]
fn redo_is_refused_while_typing() {
    let mut e = loaded("abc");
    e.action(Binding::Enter, None);
    e.action(Binding::Undo, None);
    e.action(Binding::InsertChar('q'), None);
    e.action(Binding::Redo, None);
    assert_eq!(e.serialize(), "qabc");
}

#[test]
fn undo_and_redo_on_empty_stacks_do_nothing() {
    let mut e = loaded("abc");
    e.action(Binding::Undo, None);
    assert_eq!(e.serialize(), "abc");
    e.action(Binding::Redo, None);
    assert_eq!(e.serialize(), "abc");
    assert!(!e.can_undo());
}

#[test]
fn selecting_back_to_the_anchor_clears_the_selection() {
    let mut e = loaded("hello");
    e.action(Binding::Select(BindingMotion::Right), None);
    assert_eq!(e.selection(), Some((Cursor::new(0, 0), Cursor::new(0, 1))));
    e.action(Binding::Select(BindingMotion::Left), None);
    assert_eq!(e.selection(), None);
    assert_eq!(e.cursor(), Cursor::new(0, 0));
}

#[test]
fn moves_stop_at_the_document_edges() {
    let mut e = loaded("ab\ncd");
    e.action(Binding::Move(BindingMotion::Left), None);
    assert_eq!(e.cursor(), Cursor::new(0, 0));
    e.action(Binding::Move(BindingMotion::DocumentEnd), None);
    assert_eq!(e.cursor(), Cursor::new(1, 2));
    e.action(Binding::Move(BindingMotion::Right), None);
    assert_eq!(e.cursor(), Cursor::new(1, 2));
}

#[test]
fn left_and_right_cross_line_breaks() {
    let mut e = loaded("ab\ncd");
    e.action(Binding::Move(BindingMotion::End), None);
    e.action(Binding::Move(BindingMotion::Right), None);
    assert_eq!(e.cursor(), Cursor::new(1, 0));
    e.action(Binding::Move(BindingMotion::Left), None);
    assert_eq!(e.cursor(), Cursor::new(0, 2));
}

#[test]
fn up_and_down_keep_the_column_when_they_can() {
    let mut e = loaded("abcdef\nxy\nlonger line");
    e.action(Binding::Move(BindingMotion::End), None);
    e.action(Binding::Move(BindingMotion::Down), None);
    assert_eq!(e.cursor(), Cursor::new(1, 2));
    e.action(Binding::Move(BindingMotion::Down), None);
    assert_eq!(e.cursor(), Cursor::new(2, 2));
    e.action(Binding::Move(BindingMotion::Up), None);
    e.action(Binding::Move(BindingMotion::Up), None);
    assert_eq!(e.cursor(), Cursor::new(0, 2));
    e.action(Binding::Move(BindingMotion::Up), None);
    assert_eq!(e.cursor(), Cursor::new(0, 2));
}

#[test]
fn page_motions_move_by_the_page_size() {
    let mut e = loaded("0\n1\n2\n3\n4\n5\n6");
    e.set_page_lines(3);
    e.action(Binding::Move(BindingMotion::PageDown), None);
    assert_eq!(e.cursor(), Cursor::new(3, 0));
    e.action(Binding::Move(BindingMotion::PageDown), None);
    e.action(Binding::Move(BindingMotion::PageDown), None);
    assert_eq!(e.cursor(), Cursor::new(6, 0));
    e.action(Binding::Move(BindingMotion::PageUp), None);
    assert_eq!(e.cursor(), Cursor::new(3, 0));
}

#[test]
fn word_motions_stop_at_word_edges() {
    let mut e = loaded("foo_bar  baz1, qux");
    e.action(Binding::Move(BindingMotion::WordRight), None);
    assert_eq!(e.cursor(), Cursor::new(0, 7));
    e.action(Binding::Move(BindingMotion::WordRight), None);
    assert_eq!(e.cursor(), Cursor::new(0, 13));
    e.action(Binding::Move(BindingMotion::WordLeft), None);
    assert_eq!(e.cursor(), Cursor::new(0, 9));
    e.action(Binding::Move(BindingMotion::WordLeft), None);
    assert_eq!(e.cursor(), Cursor::new(0, 0));
}

#[test]
fn move_with_selection_goes_to_its_edge() {
    let mut e = loaded("abcdef");
    e.action(Binding::Move(BindingMotion::Right), None);
    e.action(Binding::Select(BindingMotion::Right), None);
    e.action(Binding::Select(BindingMotion::Right), None);
    e.action(Binding::Move(BindingMotion::Left), None);
    assert_eq!(e.cursor(), Cursor::new(0, 1));
    assert_eq!(e.selection(), None);
    e.action(Binding::Select(BindingMotion::Right), None);
    e.action(Binding::Select(BindingMotion::Right), None);
    e.action(Binding::Move(BindingMotion::Right), None);
    assert_eq!(e.cursor(), Cursor::new(0, 3));
}

#[test]
fn backspace_and_delete_join_lines() {
    let mut e = loaded("ab\ncd");
    e.action(Binding::Move(BindingMotion::Down), None);
    e.action(Binding::Move(BindingMotion::Home), None);
    e.action(Binding::Backspace, None);
    assert_eq!(e.serialize(), "abcd");
    assert_eq!(e.cursor(), Cursor::new(0, 2));
    e.action(Binding::Delete, None);
    assert_eq!(e.serialize(), "abd");
    e.action(Binding::Move(BindingMotion::DocumentStart), None);
    e.action(Binding::Backspace, None);
    assert_eq!(e.serialize(), "abd");
}

#[test]
fn word_deletions() {
    let mut e = loaded("one two three");
    e.action(Binding::Move(BindingMotion::End), None);
    e.action(Binding::BackspaceWord, None);
    assert_eq!(e.serialize(), "one two ");
    e.action(Binding::Move(BindingMotion::Home), None);
    e.action(Binding::DeleteWord, None);
    assert_eq!(e.serialize(), " two ");
    e.action(Binding::Undo, None);
    assert_eq!(e.serialize(), "one two ");
}

#[test]
fn unindent_removes_up_to_four_spaces() {
    let mut e = loaded("      x");
    e.action(Binding::Move(BindingMotion::End), None);
    e.action(Binding::Unindent, None);
    assert_eq!(e.serialize(), "  x");
    assert_eq!(e.cursor(), Cursor::new(0, 3));
    e.action(Binding::Unindent, None);
    assert_eq!(e.serialize(), "x");
    e.action(Binding::Unindent, None);
    assert_eq!(e.serialize(), "x");
}

#[test]
fn paste_replaces_the_selection() {
    let mut e = loaded("hello world");
    e.action(Binding::Select(BindingMotion::WordRight), None);
    e.action(Binding::Paste, Some("bye\r\nnow"));
    assert_eq!(e.serialize(), "bye\r\nnow world");
    assert_eq!(e.cursor(), Cursor::new(1, 3));
    e.action(Binding::Paste, None);
    assert_eq!(e.serialize(), "bye\r\nnow world");
    e.action(Binding::Undo, None);
    assert_eq!(e.serialize(), "hello world");
}

#[test]
fn copy_returns_selection_and_keeps_text() {
    let mut e = loaded("ab\ncd");
    assert_eq!(e.action(Binding::Copy, None), None);
    e.action(Binding::SelectAll, None);
    assert_eq!(e.action(Binding::Copy, None), Some("ab\ncd".to_string()));
    assert_eq!(e.serialize(), "ab\ncd");
    e.action(Binding::Unfocus, None);
    assert_eq!(e.selection(), None);
}

#[test]
fn select_all_on_empty_document_selects_nothing() {
    let mut e = Editor::new();
    e.action(Binding::SelectAll, None);
    assert_eq!(e.selection(), None);
}

#[test]
fn enter_replaces_selection_with_line_break() {
    let mut e = loaded("abcd");
    e.action(Binding::Move(BindingMotion::Right), None);
    e.action(Binding::Select(BindingMotion::Right), None);
    e.action(Binding::Select(BindingMotion::Right), None);
    e.action(Binding::Enter, None);
    assert_eq!(e.serialize(), "a\nd");
    assert_eq!(e.cursor(), Cursor::new(1, 0));
}

#[test]
fn clicks_place_select_word_and_line() {
    let mut e = loaded("let foo_bar = 1;\nnext");
    e.click(Cursor::new(0, 6), ClickKind::Single);
    assert_eq!(e.cursor(), Cursor::new(0, 6));
    assert_eq!(e.selection(), None);
    e.click(Cursor::new(0, 6), ClickKind::Double);
    assert_eq!(e.selection(), Some((Cursor::new(0, 4), Cursor::new(0, 11))));
    e.click(Cursor::new(0, 6), ClickKind::Triple);
    assert_eq!(e.selection(), Some((Cursor::new(0, 0), Cursor::new(0, 16))));
}

#[test]
fn out_of_range_click_is_clamped() {
    let mut e = loaded("ab\ncd");
    e.click(Cursor::new(9, 9), ClickKind::Single);
    assert_eq!(e.cursor(), Cursor::new(1, 2));
    e.click(Cursor::new(0, 9), ClickKind::Single);
    assert_eq!(e.cursor(), Cursor::new(0, 2));
}

#[test]
fn dragging_extends_and_collapses_selection() {
    let mut e = loaded("abcdef");
    e.click(Cursor::new(0, 1), ClickKind::Single);
    e.drag(Cursor::new(0, 4));
    assert_eq!(e.selection(), Some((Cursor::new(0, 1), Cursor::new(0, 4))));
    e.drag(Cursor::new(0, 1));
    assert_eq!(e.selection(), None);
}

#[test]
fn loading_clears_the_history() {
    let mut e = loaded("abc");
    e.action(Binding::Tab, None);
    assert!(e.can_undo());
    e.load_text("new");
    assert!(!e.can_undo());
    assert!(!e.can_redo());
    assert_eq!(e.cursor(), Cursor::new(0, 0));
}

#[test]
fn inserted_control_character_breaks_the_line() {
    let mut e = Editor::new();
    e.action(Binding::InsertChar('\n'), None);
    assert_eq!(e.line_count(), 2);
    assert_eq!(e.serialize(), "\n");
}

#[test]
fn multibyte_characters_are_single_columns() {
    let mut e = loaded("añb€");
    e.action(Binding::Move(BindingMotion::End), None);
    assert_eq!(e.cursor(), Cursor::new(0, 4));
    e.action(Binding::Backspace, None);
    assert_eq!(e.serialize(), "añb");
}

#[test]
fn enter_keeps_the_indentation() {
    let mut e = loaded("    foo");
    e.action(Binding::Move(BindingMotion::End), None);
    e.action(Binding::Enter, None);
    assert_eq!(e.serialize(), "    foo\n    ");
    assert_eq!(e.cursor(), Cursor::new(1, 4));
    let mut t = loaded("\t bar");
    t.action(Binding::Move(BindingMotion::End), None);
    t.action(Binding::Enter, None);
    assert_eq!(t.serialize(), "\t bar\n\t ");
}

#[test]
fn selected_columns_per_line() {
    let mut e = loaded("abc\nde\nfgh");
    e.action(Binding::Move(BindingMotion::Right), None);
    e.action(Binding::Select(BindingMotion::Down), None);
    e.action(Binding::Select(BindingMotion::Down), None);
    assert_eq!(e.selected_columns(0), Some((1, 4)));
    assert_eq!(e.selected_columns(1), Some((0, 3)));
    assert_eq!(e.selected_columns(2), Some((0, 1)));
    e.action(Binding::Unfocus, None);
    assert_eq!(e.selected_columns(0), None);
}
