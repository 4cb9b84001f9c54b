//! The editing state of one document: lines, cursor, selection, the change
//! being recorded, and the undo and redo stacks.
use vstd::prelude::*;
use crate::binding::{Binding, BindingMotion};
use crate::click::ClickKind;
use crate::change::{
    apply_change, apply_change_lines, apply_item, change_ok, flip, item_ok, lemma_change_concat, lemma_change_inverse, lemma_change_one, lemma_item_inverse,
    lemma_reverse_twice, reverse_change, Change, ChangeItem, ItemV,
};
use crate::motion::{
    apply_motion, at, lemma_skip_left_range, lemma_skip_right_range, min_nat, motion_target,
    skip_left, skip_left_exec, skip_right, skip_right_exec, word_classes, word_classes_of,
};
use crate::text::{
    empty_fragment, end_fits, end_pos, extract, extract_lines, lines_view, lines_wf, parse,
    offset, parse_chars, parse_text, pos_le, pos_ok, serialize_lines, serialize_text, splice,
    string_of, Cursor, Line, LineEnding, LineV,
};

verus! {

pub struct EditorV {
    pub lines: Seq<LineV>,
    pub cursor: Cursor,
    pub anchor: Option<Cursor>,
    pub undo: Seq<Seq<ItemV>>,
    pub redo: Seq<Seq<ItemV>>,
    pub open: Option<Seq<ItemV>>,
    pub page: nat,
}

pub open spec fn changes_view(v: Seq<Change>) -> Seq<Seq<ItemV>> {
    Seq::new(v.len(), |i: int| v[i]@)
}

/// A stack of changes whose top, reversed, can be applied to `ls`, and so on
/// down the stack.
pub open spec fn stack_ok(ls: Seq<LineV>, st: Seq<Seq<ItemV>>) -> bool
    decreases st.len(),
{
    st.len() == 0 || (change_ok(ls, reverse_change(st.last())) && stack_ok(
        apply_change(ls, reverse_change(st.last())),
        st.drop_last(),
    ))
}

/// The lines that undoing every change of the stack leads to.
pub open spec fn unwind(ls: Seq<LineV>, st: Seq<Seq<ItemV>>) -> Seq<LineV>
    decreases st.len(),
{
    if st.len() == 0 {
        ls
    } else {
        unwind(apply_change(ls, reverse_change(st.last())), st.drop_last())
    }
}

/// The lines before the change being recorded.
pub open spec fn before_open(s: EditorV) -> Seq<LineV> {
    match s.open {
        Some(o) => apply_change(s.lines, reverse_change(o)),
        None => s.lines,
    }
}

/// The lines that undoing everything leads to.
pub open spec fn history_base(s: EditorV) -> Seq<LineV> {
    unwind(before_open(s), s.undo)
}

/// How many undo steps the history holds.
pub open spec fn history_depth(s: EditorV) -> nat {
    s.undo.len() + match s.open {
        Some(o) => if o.len() > 0 {
            1nat
        } else {
            0nat
        },
        None => 0nat,
    }
}

/// The selection as an ordered range, if there is one.
pub open spec fn selection_bounds(s: EditorV) -> Option<(Cursor, Cursor)> {
    match s.anchor {
        Some(a) => if pos_le(a, s.cursor) {
            Some((a, s.cursor))
        } else {
            Some((s.cursor, a))
        },
        None => None,
    }
}

pub open spec fn editor_wf(s: EditorV) -> bool {
    &&& lines_wf(s.lines)
    &&& pos_ok(s.lines, s.cursor)
    &&& match s.anchor {
        Some(a) => pos_ok(s.lines, a) && a != s.cursor,
        None => true,
    }
    &&& match s.open {
        Some(o) => change_ok(s.lines, reverse_change(o)),
        None => true,
    }
    &&& stack_ok(before_open(s), s.undo)
    &&& stack_ok(s.lines, s.redo)
}

/// Whether `c` has the Unicode White_Space property: tab to carriage
/// return, space, next line, no-break space, ogham space mark, the spaces
/// from en quad to hair space, line and paragraph separators, narrow
/// no-break space, medium mathematical space and ideographic space.
pub open spec fn whitespace(c: char) -> bool {
    let v = c as u32;
    (0x9 <= v && v <= 0xd) || v == 0x20 || v == 0x85 || v == 0xa0 || v == 0x1680 || (0x2000
        <= v && v <= 0x200a) || v == 0x2028 || v == 0x2029 || v == 0x202f || v == 0x205f || v
        == 0x3000
}

pub fn is_whitespace(c: char) -> (r: bool)
    ensures
        r == whitespace(c),
{
    let v = c as u32;
    (0x9 <= v && v <= 0xd) || v == 0x20 || v == 0x85 || v == 0xa0 || v == 0x1680 || (0x2000 <= v
        && v <= 0x200a) || v == 0x2028 || v == 0x2029 || v == 0x202f || v == 0x205f || v == 0x3000
}

/// The end of the run of whitespace that starts at `j` in `t`.
pub open spec fn indent_end(t: Seq<char>, j: int) -> int
    decreases t.len() - j,
{
    if 0 <= j < t.len() && whitespace(t[j]) {
        indent_end(t, j + 1)
    } else {
        j
    }
}

/// A line break followed by the leading whitespace of the line `t`, so that
/// the new line starts at the same indentation.
pub open spec fn newline_fragment(t: Seq<char>) -> Seq<LineV> {
    seq![
        LineV { text: Seq::empty(), ending: LineEnding::Lf },
        LineV { text: t.take(indent_end(t, 0)), ending: LineEnding::NoEnding },
    ]
}

proof fn lemma_indent_range(t: Seq<char>, j: int)
    requires
        0 <= j <= t.len(),
    ensures
        j <= indent_end(t, j) <= t.len(),
    decreases t.len() - j,
{
    if j < t.len() && whitespace(t[j]) {
        lemma_indent_range(t, j + 1);
    }
}

/// The lines after the text from `a` to `b` is replaced with `f`.
pub open spec fn replace_lines(ls: Seq<LineV>, a: Cursor, b: Cursor, f: Seq<LineV>) -> Seq<LineV> {
    let l1 = if a == b {
        ls
    } else {
        splice(ls, a, b, empty_fragment())
    };
    if f == empty_fragment() {
        l1
    } else {
        splice(l1, a, a, f)
    }
}

/// Where the cursor stands after the text from `a` is replaced with `f`.
pub open spec fn replace_cursor(a: Cursor, f: Seq<LineV>) -> Cursor {
    if f == empty_fragment() {
        a
    } else {
        end_pos(a, f)
    }
}

/// The effect of replacing the text from `a` to `b` with `f`: the new lines
/// and cursor. A replacement whose end position would not be representable
/// leaves everything as it is.
pub open spec fn replace_effect(s: EditorV, a: Cursor, b: Cursor, f: Seq<LineV>) -> (
    Seq<LineV>,
    Cursor,
) {
    if end_fits(a, f) {
        (replace_lines(s.lines, a, b, f), replace_cursor(a, f))
    } else {
        (s.lines, s.cursor)
    }
}

/// The history is kept: undoing everything still leads to the same lines,
/// and at most one more undo step is recorded.
pub open spec fn history_kept(s: EditorV, t: EditorV) -> bool {
    &&& history_base(t) == history_base(s)
    &&& history_depth(t) <= history_depth(s) + 1
}

/// The document and editing state.
pub struct Editor {
    lines: Vec<Line>,
    cursor: Cursor,
    anchor: Option<Cursor>,
    undo_stack: Vec<Change>,
    redo_stack: Vec<Change>,
    open: Option<Change>,
    page: usize,
    revision: u64,
}

impl View for Editor {
    type V = EditorV;

    closed spec fn view(&self) -> EditorV {
        EditorV {
            lines: lines_view(self.lines@),
            cursor: self.cursor,
            anchor: self.anchor,
            undo: changes_view(self.undo_stack@),
            redo: changes_view(self.redo_stack@),
            open: match self.open {
                Some(o) => Some(o@),
                None => None,
            },
            page: self.page as nat,
        }
    }
}

proof fn lemma_empty_fragment_wf()
    ensures
        lines_wf(empty_fragment()),
{
    assert(lines_wf(empty_fragment())) by {
        assert forall|i: int| 0 <= i < 1 implies crate::text::text_ok(
            #[trigger] empty_fragment()[i].text,
        ) by {}
    }
}

proof fn lemma_stack_push(ls: Seq<LineV>, st: Seq<Seq<ItemV>>, c: Seq<ItemV>)
    requires
        lines_wf(apply_change(ls, reverse_change(c))),
        change_ok(ls, reverse_change(c)),
        stack_ok(apply_change(ls, reverse_change(c)), st),
    ensures
        stack_ok(ls, st.push(c)),
        unwind(ls, st.push(c)) == unwind(apply_change(ls, reverse_change(c)), st),
{
    assert(st.push(c).last() == c);
    assert(st.push(c).drop_last() =~= st);
}

proof fn lemma_apply_empty(ls: Seq<LineV>)
    ensures
        apply_change(ls, reverse_change(Seq::<ItemV>::empty())) == ls,
        change_ok(ls, reverse_change(Seq::<ItemV>::empty())),
{
    assert(reverse_change(Seq::<ItemV>::empty()) =~= Seq::<ItemV>::empty());
}

/// Recording one more item in the open change keeps what undoing the whole
/// change leads to.
proof fn lemma_open_push(ls: Seq<LineV>, o: Seq<ItemV>, it: ItemV)
    requires
        lines_wf(ls),
        change_ok(ls, reverse_change(o)),
        item_ok(ls, it),
    ensures
        lines_wf(apply_item(ls, it)),
        change_ok(apply_item(ls, it), reverse_change(o.push(it))),
        apply_change(apply_item(ls, it), reverse_change(o.push(it))) == apply_change(
            ls,
            reverse_change(o),
        ),
{
    let l2 = apply_item(ls, it);
    lemma_item_inverse(ls, it);
    assert(reverse_change(o.push(it)) =~= seq![flip(it)] + reverse_change(o));
    lemma_change_concat(l2, seq![flip(it)], reverse_change(o));
    lemma_change_one(l2, flip(it));
}

/// Where the cursor stands after a change is applied: at the end of its last
/// insertion, or where its last deletion began.
pub open spec fn change_cursor(c: Cursor, x: Seq<ItemV>) -> Cursor {
    if x.len() == 0 {
        c
    } else if x.last().insert {
        x.last().end
    } else {
        x.last().start
    }
}

/// Applies the change `x` to the lines of `s`, moving the cursor to the
/// change and clearing the selection.
pub open spec fn apply_to(s: EditorV, x: Seq<ItemV>) -> EditorV {
    EditorV {
        lines: apply_change(s.lines, x),
        cursor: change_cursor(s.cursor, x),
        anchor: None,
        ..s
    }
}

/// Undo: reverses the change being recorded if it holds anything, else the
/// top of the undo stack; the reversed change goes onto the redo stack.
/// With nothing to undo, only the empty open change is closed.
pub open spec fn undo_spec(s: EditorV) -> EditorV {
    if s.open.is_some() && s.open.unwrap().len() > 0 {
        let x = reverse_change(s.open.unwrap());
        EditorV { open: None, redo: s.redo.push(x), ..apply_to(s, x) }
    } else if s.undo.len() > 0 {
        let x = reverse_change(s.undo.last());
        EditorV { open: None, undo: s.undo.drop_last(), redo: s.redo.push(x), ..apply_to(s, x) }
    } else {
        EditorV { open: None, ..s }
    }
}

/// Redo: does nothing while a change is being recorded; else reverses the
/// top of the redo stack and pushes the result onto the undo stack.
pub open spec fn redo_spec(s: EditorV) -> EditorV {
    if s.open.is_some() || s.redo.len() == 0 {
        s
    } else {
        let x = reverse_change(s.redo.last());
        EditorV { redo: s.redo.drop_last(), undo: s.undo.push(x), ..apply_to(s, x) }
    }
}

/// The selection range, or the empty range at the cursor.
pub open spec fn sel_range(s: EditorV) -> (Cursor, Cursor) {
    match selection_bounds(s) {
        Some(p) => p,
        None => (s.cursor, s.cursor),
    }
}

/// Four spaces, the text a tab inserts.
pub open spec fn tab_fragment() -> Seq<LineV> {
    seq![LineV { text: seq![' ', ' ', ' ', ' '], ending: LineEnding::NoEnding }]
}

/// The end of the run of spaces (at most four) that starts a line.
pub open spec fn spaces_from(t: Seq<char>, j: int) -> int
    decreases 4 - j,
{
    if 0 <= j < 4 && j < t.len() && t[j] == ' ' {
        spaces_from(t, j + 1)
    } else {
        j
    }
}

/// Whether an edit action closes the change being recorded and opens a new
/// one; the others continue it, so that typing and deleting character by
/// character are undone together.
pub open spec fn fresh_change(b: Binding) -> bool {
    match b {
        Binding::Backspace | Binding::Delete | Binding::InsertChar(_) => false,
        _ => true,
    }
}

/// The deletion that an action makes when nothing is selected: from
/// the target of motion `m` to the cursor, or the other way round.
pub open spec fn delete_plan(s: EditorV, m: BindingMotion, backward: bool) -> Option<
    (Cursor, Cursor, Seq<LineV>),
> {
    if s.anchor.is_some() {
        Some((sel_range(s).0, sel_range(s).1, empty_fragment()))
    } else if backward {
        Some((motion_target(s.lines, s.cursor, m, s.page), s.cursor, empty_fragment()))
    } else {
        Some((s.cursor, motion_target(s.lines, s.cursor, m, s.page), empty_fragment()))
    }
}

/// For an editing action, the range it replaces and the text it puts there.
pub open spec fn edit_plan(s: EditorV, b: Binding, clip: Option<Seq<char>>) -> Option<
    (Cursor, Cursor, Seq<LineV>),
> {
    let lo = sel_range(s).0;
    let hi = sel_range(s).1;
    let c = s.cursor;
    match b {
        Binding::Enter => Some((lo, hi, newline_fragment(s.lines[c.line as int].text))),
        Binding::Tab => Some((lo, hi, tab_fragment())),
        Binding::Unindent => Some(
            (
                at(c.line as int, 0),
                at(c.line as int, spaces_from(s.lines[c.line as int].text, 0)),
                empty_fragment(),
            ),
        ),
        Binding::Backspace => delete_plan(s, BindingMotion::Left, true),
        Binding::Delete => delete_plan(s, BindingMotion::Right, false),
        Binding::BackspaceWord => delete_plan(s, BindingMotion::WordLeft, true),
        Binding::DeleteWord => delete_plan(s, BindingMotion::WordRight, false),
        Binding::Cut => Some((lo, hi, empty_fragment())),
        Binding::Paste => match clip {
            Some(t) => Some((lo, hi, parse(t))),
            None => None,
        },
        Binding::InsertChar(ch) => Some((lo, hi, parse(seq![ch]))),
        _ => None,
    }
}

/// Where a plain move puts the cursor: with a selection, Home, End and the
/// document motions move from the cursor while the other motions stop at the
/// start or end of the selection; without one, the motion applies.
pub open spec fn move_target(s: EditorV, m: BindingMotion) -> Cursor {
    if s.anchor.is_some() {
        match m {
            BindingMotion::Home | BindingMotion::End | BindingMotion::DocumentStart
            | BindingMotion::DocumentEnd => motion_target(s.lines, s.cursor, m, s.page),
            BindingMotion::Left | BindingMotion::Up | BindingMotion::WordLeft
            | BindingMotion::PageUp => sel_range(s).0,
            _ => sel_range(s).1,
        }
    } else {
        motion_target(s.lines, s.cursor, m, s.page)
    }
}

/// The document holds more than one empty line.
pub open spec fn has_content(ls: Seq<LineV>) -> bool {
    ls.len() > 1 || ls[0].text.len() > 0
}

/// The lines, cursor and selection anchor after an action; `clip` is what
/// the clipboard holds.
pub open spec fn action_text(s: EditorV, b: Binding, clip: Option<Seq<char>>) -> (
    Seq<LineV>,
    Cursor,
    Option<Cursor>,
) {
    match edit_plan(s, b, clip) {
        Some(p) => {
            let e = replace_effect(s, p.0, p.1, p.2);
            let c = if b == Binding::Unindent {
                let n = p.1.index;
                if s.cursor.index >= n {
                    at(s.cursor.line as int, s.cursor.index - n)
                } else {
                    at(s.cursor.line as int, 0)
                }
            } else {
                e.1
            };
            (e.0, c, None)
        },
        None => match b {
            Binding::Unfocus => (s.lines, s.cursor, None),
            Binding::SelectAll => if has_content(s.lines) {
                (
                    s.lines,
                    motion_target(s.lines, s.cursor, BindingMotion::DocumentEnd, s.page),
                    Some(at(0, 0)),
                )
            } else {
                (s.lines, s.cursor, s.anchor)
            },
            Binding::Move(m) => (s.lines, move_target(s, m), None),
            Binding::Select(m) => {
                let a = match s.anchor {
                    Some(a) => a,
                    None => s.cursor,
                };
                let t = motion_target(s.lines, s.cursor, m, s.page);
                (s.lines, t, if t == a {
                    None
                } else {
                    Some(a)
                })
            },
            Binding::Undo => (undo_spec(s).lines, undo_spec(s).cursor, undo_spec(s).anchor),
            Binding::Redo => (redo_spec(s).lines, redo_spec(s).cursor, redo_spec(s).anchor),
            _ => (s.lines, s.cursor, s.anchor),
        },
    }
}

/// The columns of line `i` that the selection covers, as a half-open range.
/// A selection that goes on past the end of the line also covers the line
/// break, shown as one column after the last character.
pub open spec fn selected_columns_spec(s: EditorV, i: int) -> Option<(usize, usize)> {
    match selection_bounds(s) {
        Some(p) => if p.0.line <= i <= p.1.line {
            let from = if i == p.0.line {
                p.0.index
            } else {
                0
            };
            let len = s.lines[i].text.len();
            let to = if i == p.1.line {
                p.1.index as int
            } else if len < usize::MAX {
                (len + 1) as int
            } else {
                len as int
            };
            Some((from, to as usize))
        } else {
            None
        },
        None => None,
    }
}

/// The selected text, if anything is selected.
pub open spec fn selected_text(s: EditorV) -> Option<Seq<char>> {
    match selection_bounds(s) {
        Some(p) => Some(serialize_lines(extract(s.lines, p.0, p.1))),
        None => None,
    }
}

/// What an action writes to the clipboard: the selection, for copy and cut.
pub open spec fn action_output(s: EditorV, b: Binding) -> Option<Seq<char>> {
    match b {
        Binding::Copy | Binding::Cut => selected_text(s),
        _ => None,
    }
}

/// The position of `ls` nearest to `p`: the line and the index are each cut
/// down to the largest valid value.
pub open spec fn clamp_pos(ls: Seq<LineV>, p: Cursor) -> Cursor {
    let l = min_nat(p.line as int, ls.len() - 1);
    at(l, min_nat(p.index as int, ls[l].text.len() as int))
}

/// The cursor and anchor after a press of kind `k` at `p`: a single press
/// places the caret, a double press selects the run of word characters (or
/// of other characters) at the press, a triple press selects the line.
pub open spec fn click_selection(ls: Seq<LineV>, p: Cursor, k: ClickKind) -> (Cursor, Option<Cursor>) {
    let q = clamp_pos(ls, p);
    let l = q.line as int;
    let t = ls[l].text;
    let i = q.index as int;
    match k {
        ClickKind::Single => (q, None),
        ClickKind::Double => {
            let k = word_classes(t);
            let w = i < t.len() && k[i];
            let lo = skip_left(k, i, w);
            let hi = skip_right(k, i, w);
            if lo == hi {
                (q, None)
            } else {
                (at(l, hi), Some(at(l, lo)))
            }
        },
        ClickKind::Triple => if t.len() == 0 {
            (q, None)
        } else {
            (at(l, t.len() as int), Some(at(l, 0)))
        },
    }
}

/// The cursor and anchor after dragging to `p`: the selection runs from
/// where it started (or from the cursor) to `p`, and disappears when the two
/// meet.
pub open spec fn drag_selection(s: EditorV, p: Cursor) -> (Cursor, Option<Cursor>) {
    let q = clamp_pos(s.lines, p);
    let a = match s.anchor {
        Some(a) => a,
        None => s.cursor,
    };
    (q, if q == a {
        None
    } else {
        Some(a)
    })
}

/// An action that leaves the change log alone.
pub open spec fn keeps_history(s: EditorV, b: Binding, clip: Option<Seq<char>>) -> bool {
    edit_plan(s, b, clip).is_none() && b != Binding::Undo && b != Binding::Redo && !(
    b is Move)
}

/// The undo stack once the change being recorded is closed: it gains that
/// change unless the change is empty.
pub open spec fn committed_undo(s: EditorV) -> Seq<Seq<ItemV>> {
    match s.open {
        Some(o) => if o.len() > 0 {
            s.undo.push(o)
        } else {
            s.undo
        },
        None => s.undo,
    }
}

/// How an edit from `s` to `t` is recorded. A fresh change first closes the
/// one being recorded (see `committed_undo`) and undoes back to the lines
/// of `s`; otherwise the edit joins the change being recorded, so one undo
/// goes back to where that change started.
pub open spec fn records_edit(s: EditorV, t: EditorV, fresh: bool) -> bool {
    if fresh {
        t.undo == committed_undo(s) && before_open(t) == s.lines
    } else {
        t.undo == s.undo && before_open(t) == before_open(s)
    }
}

/// One edit action: the state stays valid, the redo stack is emptied, and
/// the history is kept.
pub open spec fn edit_step(s: EditorV, t: EditorV) -> bool {
    &&& editor_wf(s)
    &&& editor_wf(t)
    &&& t.redo.len() == 0
    &&& history_kept(s, t)
}

pub open spec fn clip_view(c: Option<&str>) -> Option<Seq<char>> {
    match c {
        Some(t) => Some(t@),
        None => None,
    }
}

pub open spec fn string_view(c: Option<String>) -> Option<Seq<char>> {
    match c {
        Some(t) => Some(t@),
        None => None,
    }
}

proof fn lemma_motion_order(ls: Seq<LineV>, c: Cursor, m: BindingMotion, page: nat)
    requires
        lines_wf(ls),
        pos_ok(ls, c),
        ls[c.line as int].text.len() <= usize::MAX,
        ls.len() <= usize::MAX,
    ensures
        (m == BindingMotion::Left || m == BindingMotion::WordLeft) ==> pos_le(
            motion_target(ls, c, m, page),
            c,
        ),
        (m == BindingMotion::Right || m == BindingMotion::WordRight) ==> pos_le(
            c,
            motion_target(ls, c, m, page),
        ),
{
    let t = word_classes(ls[c.line as int].text);
    lemma_skip_left_range(t, c.index as int, false);
    lemma_skip_left_range(t, crate::motion::skip_left(t, c.index as int, false), true);
    lemma_skip_right_range(t, c.index as int, false);
    lemma_skip_right_range(t, crate::motion::skip_right(t, c.index as int, false), true);
}

proof fn lemma_spaces_range(t: Seq<char>, j: int)
    requires
        0 <= j <= t.len(),
        j <= 4,
    ensures
        j <= spaces_from(t, j) <= t.len(),
        spaces_from(t, j) <= 4,
    decreases 4 - j,
{
    if j < 4 && j < t.len() && t[j] == ' ' {
        lemma_spaces_range(t, j + 1);
    }
}

proof fn lemma_newline_wf(t: Seq<char>)
    requires
        crate::text::text_ok(t),
    ensures
        lines_wf(newline_fragment(t)),
{
    lemma_indent_range(t, 0);
    let f = newline_fragment(t);
    assert forall|i: int| 0 <= i < 2 implies crate::text::text_ok(#[trigger] f[i].text) by {
        if i == 1 {
            assert forall|j: int| 0 <= j < f[1].text.len() implies !crate::text::is_break(
                #[trigger] f[1].text[j],
            ) by {
                assert(f[1].text[j] == t[j]);
            }
        }
    }
}

proof fn lemma_fragments_wf()
    ensures
        lines_wf(empty_fragment()),
        lines_wf(tab_fragment()),
{
    lemma_empty_fragment_wf();
    assert(lines_wf(tab_fragment())) by {
        assert forall|i: int| 0 <= i < 1 implies crate::text::text_ok(
            #[trigger] tab_fragment()[i].text,
        ) by {
            assert forall|j: int| 0 <= j < 4 implies !crate::text::is_break(
                #[trigger] tab_fragment()[i].text[j],
            ) by {}
        }
    }
}

proof fn lemma_change_cursor_ok(ls: Seq<LineV>, x: Seq<ItemV>, c: Cursor)
    requires
        lines_wf(ls),
        change_ok(ls, x),
        x.len() > 0,
    ensures
        pos_ok(apply_change(ls, x), change_cursor(c, x)),
{
    let front = x.drop_last();
    let it = x.last();
    assert(x =~= front + seq![it]);
    lemma_change_concat(ls, front, seq![it]);
    let m = apply_change(ls, front);
    crate::change::lemma_change_wf(ls, front);
    lemma_change_one(m, it);
    if it.insert {
        crate::text::lemma_insert_inverse(m, it.start, it.text);
    } else {
        crate::text::lemma_delete_inverse(m, it.start, it.end);
    }
}

/// Popping the top of a valid stack and applying its reverse leaves a valid
/// state, and pushing the applied change on the other stack is valid too.
proof fn lemma_stack_move(ls: Seq<LineV>, st: Seq<Seq<ItemV>>, other: Seq<Seq<ItemV>>, c: Seq<ItemV>)
    requires
        lines_wf(ls),
        change_ok(ls, reverse_change(c)),
        stack_ok(apply_change(ls, reverse_change(c)), st),
        stack_ok(ls, other),
    ensures
        ({
            let x = reverse_change(c);
            let l2 = apply_change(ls, x);
            &&& lines_wf(l2)
            &&& stack_ok(l2, st)
            &&& stack_ok(l2, other.push(x))
            &&& unwind(l2, other.push(x)) == unwind(ls, other)
        }),
{
    let x = reverse_change(c);
    let l2 = apply_change(ls, x);
    lemma_change_inverse(ls, x);
    lemma_reverse_twice(c);
    assert(reverse_change(x) == c);
    lemma_change_inverse(l2, c);
    lemma_stack_push(l2, other, x);
}

/// Every edit changes the saved text as a string replacement: the text
/// between the offsets of `a` and `b` gives way to the text of `f`, which is
/// what `Editor::action` does for each editing binding with its plan.
pub proof fn lemma_replace_text(s: EditorV, a: Cursor, b: Cursor, f: Seq<LineV>)
    requires
        lines_wf(s.lines),
        lines_wf(f),
        pos_ok(s.lines, a),
        pos_ok(s.lines, b),
        pos_le(a, b),
        end_fits(a, f),
    ensures
        serialize_lines(replace_effect(s, a, b, f).0) == serialize_lines(s.lines).take(
            offset(s.lines, a),
        ) + serialize_lines(f) + serialize_lines(s.lines).skip(offset(s.lines, b)),
{
    let ls = s.lines;
    let t = serialize_lines(ls);
    let e = empty_fragment();
    lemma_empty_fragment_wf();
    assert(serialize_lines(e) =~= Seq::<char>::empty()) by {
        crate::text::lemma_serialize_one(e[0]);
        assert(e =~= seq![e[0]]);
    }
    let l1 = if a == b {
        ls
    } else {
        splice(ls, a, b, e)
    };
    let t1 = serialize_lines(l1);
    crate::text::lemma_offset_bound(ls, a);
    crate::text::lemma_offset_bound(ls, b);
    crate::text::lemma_offset_order(ls, a, b);
    if a != b {
        crate::text::lemma_splice_text(ls, a, b, e);
        crate::text::lemma_delete_inverse(ls, a, b);
        crate::text::lemma_splice_wf(ls, a, b, e);
    }
    assert(t1 =~= t.take(offset(ls, a)) + t.skip(offset(ls, b))) by {
        if a == b {
            assert(t =~= t.take(offset(ls, a)) + t.skip(offset(ls, a)));
        } else {
            assert(t.take(offset(ls, a)) + Seq::<char>::empty() =~= t.take(offset(ls, a)));
        }
    }
    assert(offset(l1, a) == offset(ls, a));
    if f != e {
        crate::text::lemma_splice_text(l1, a, a, f);
        assert(t1.take(offset(l1, a)) =~= t.take(offset(ls, a)));
        assert(t1.skip(offset(l1, a)) =~= t.skip(offset(ls, b)));
        assert(serialize_lines(splice(l1, a, a, f)) =~= t.take(offset(ls, a)) + serialize_lines(f)
            + t.skip(offset(ls, b)));
    } else {
        assert(t1 =~= t.take(offset(ls, a)) + serialize_lines(f) + t.skip(offset(ls, b)));
    }
}

/// The lines that redoing everything leads to.
pub open spec fn history_future(s: EditorV) -> Seq<LineV> {
    unwind(s.lines, s.redo)
}

/// `n` undos in a row.
pub open spec fn undo_n(s: EditorV, n: nat) -> EditorV
    decreases n,
{
    if n == 0 {
        s
    } else {
        undo_n(undo_spec(s), (n - 1) as nat)
    }
}

/// `n` redos in a row.
pub open spec fn redo_n(s: EditorV, n: nat) -> EditorV
    decreases n,
{
    if n == 0 {
        s
    } else {
        redo_n(redo_spec(s), (n - 1) as nat)
    }
}

/// What one undo does to the history.
pub proof fn lemma_undo_step(s: EditorV)
    requires
        editor_wf(s),
    ensures
        editor_wf(undo_spec(s)),
        undo_spec(s).open.is_none(),
        history_base(undo_spec(s)) == history_base(s),
        history_future(undo_spec(s)) == history_future(s),
        history_depth(s) > 0 ==> history_depth(undo_spec(s)) == history_depth(s) - 1
            && undo_spec(s).redo.len() == s.redo.len() + 1,
        history_depth(s) == 0 ==> undo_spec(s).lines == s.lines && undo_spec(s).redo == s.redo
            && history_depth(undo_spec(s)) == 0,
{
    let u = undo_spec(s);
    if s.open.is_some() && s.open.unwrap().len() > 0 {
        let o = s.open.unwrap();
        let x = reverse_change(o);
        lemma_stack_move(s.lines, s.undo, s.redo, o);
        lemma_change_cursor_ok(s.lines, x, s.cursor);
    } else {
        if s.open.is_some() {
            assert(s.open.unwrap() =~= Seq::<ItemV>::empty());
            lemma_apply_empty(s.lines);
        }
        if s.undo.len() > 0 {
            let c = s.undo.last();
            let x = reverse_change(c);
            lemma_stack_move(s.lines, s.undo.drop_last(), s.redo, c);
            if x.len() > 0 {
                lemma_change_cursor_ok(s.lines, x, s.cursor);
            } else {
                assert(x =~= Seq::<ItemV>::empty());
            }
        }
    }
}

/// What one redo does to the history.
pub proof fn lemma_redo_step(s: EditorV)
    requires
        editor_wf(s),
        s.open.is_none(),
    ensures
        editor_wf(redo_spec(s)),
        redo_spec(s).open.is_none(),
        history_future(redo_spec(s)) == history_future(s),
        s.redo.len() > 0 ==> redo_spec(s).redo.len() == s.redo.len() - 1,
        s.redo.len() == 0 ==> redo_spec(s) == s,
{
    if s.redo.len() > 0 {
        let r = s.redo.last();
        let x = reverse_change(r);
        lemma_stack_move(s.lines, s.redo.drop_last(), s.undo, r);
        if x.len() > 0 {
            lemma_change_cursor_ok(s.lines, x, s.cursor);
        } else {
            assert(x =~= Seq::<ItemV>::empty());
        }
    }
}

proof fn lemma_depth_zero(s: EditorV)
    requires
        editor_wf(s),
        history_depth(s) == 0,
    ensures
        s.lines == history_base(s),
{
    if s.open.is_some() {
        assert(s.open.unwrap() =~= Seq::<ItemV>::empty());
        lemma_apply_empty(s.lines);
    }
}

proof fn lemma_undo_many(s: EditorV, k: nat)
    requires
        editor_wf(s),
        k >= history_depth(s),
    ensures
        editor_wf(undo_n(s, k)),
        undo_n(s, k).lines == history_base(s),
        k > 0 ==> undo_n(s, k).open.is_none(),
        undo_n(s, k).redo.len() == s.redo.len() + history_depth(s),
        history_future(undo_n(s, k)) == history_future(s),
    decreases k,
{
    if k == 0 {
        lemma_depth_zero(s);
    } else {
        lemma_undo_step(s);
        let u = undo_spec(s);
        lemma_undo_many(u, (k - 1) as nat);
        if history_depth(s) == 0 {
            lemma_depth_zero(s);
        }
    }
}

proof fn lemma_redo_many(s: EditorV, k: nat)
    requires
        editor_wf(s),
        s.open.is_none(),
        k >= s.redo.len(),
    ensures
        redo_n(s, k).lines == history_future(s),
    decreases k,
{
    if k == 0 {
        assert(s.redo =~= Seq::<Seq<ItemV>>::empty());
    } else {
        lemma_redo_step(s);
        lemma_redo_many(redo_spec(s), (k - 1) as nat);
    }
}

proof fn lemma_edit_chain(states: Seq<EditorV>, i: int)
    requires
        states.len() >= 1,
        editor_wf(states[0]),
        forall|j: int| 0 <= j < states.len() - 1 ==> edit_step(#[trigger] states[j], states[j + 1]),
        0 <= i < states.len(),
    ensures
        editor_wf(states[i]),
        history_base(states[i]) == history_base(states[0]),
        history_depth(states[i]) <= history_depth(states[0]) + i,
    decreases i,
{
    if i > 0 {
        lemma_edit_chain(states, i - 1);
        assert(edit_step(states[i - 1], states[i]));
    }
}

/// Undo and redo are inverse: after a run of `n` edit actions on a document
/// with no history (a freshly loaded one), `n` undos bring back the lines it
/// started with, and `n` redos after them bring back the lines after the
/// edits. `states[j + 1]` is the state after the `j`-th edit action, as
/// `Editor::action` states it for every editing binding.
pub proof fn lemma_undo_redo_inverse(states: Seq<EditorV>)
    requires
        states.len() >= 1,
        editor_wf(states[0]),
        states[0].undo.len() == 0,
        states[0].open.is_none(),
        forall|j: int| 0 <= j < states.len() - 1 ==> edit_step(#[trigger] states[j], states[j + 1]),
    ensures
        ({
            let n = (states.len() - 1) as nat;
            let last = states[n as int];
            &&& undo_n(last, n).lines == states[0].lines
            &&& redo_n(undo_n(last, n), n).lines == last.lines
        }),
{
    let n = (states.len() - 1) as nat;
    let last = states[n as int];
    lemma_edit_chain(states, n as int);
    lemma_depth_zero(states[0]);
    lemma_undo_many(last, n);
    if n > 0 {
        assert(edit_step(states[n - 1], states[n as int]));
        assert(last.redo =~= Seq::<Seq<ItemV>>::empty());
        let u = undo_n(last, n);
        lemma_redo_many(u, n);
    }
}

/// With nothing on the undo stack, one undo goes back to the lines the
/// change being recorded started from; so characters typed one after the
/// other into a fresh document are undone together.
pub proof fn lemma_undo_open_change(s: EditorV)
    requires
        editor_wf(s),
        s.undo.len() == 0,
    ensures
        undo_spec(s).lines == before_open(s),
{
    if s.open.is_some() && s.open.unwrap().len() == 0 {
        assert(s.open.unwrap() =~= Seq::<ItemV>::empty());
        lemma_apply_empty(s.lines);
    }
}

/// A new edit makes redo impossible: after edit A, an undo, and edit B, a
/// redo changes nothing.
pub proof fn lemma_redo_invalidated(s0: EditorV, s1: EditorV, s3: EditorV)
    requires
        edit_step(s0, s1),
        edit_step(undo_spec(s1), s3),
    ensures
        redo_spec(s3) == s3,
{
}

/// A selection never has zero width: a `Select` motion that brings the
/// cursor back to the anchor leaves no selection.
pub proof fn lemma_select_collapse(s: EditorV, m: BindingMotion, clip: Option<Seq<char>>)
    requires
        editor_wf(s),
        motion_target(s.lines, s.cursor, m, s.page) == match s.anchor {
            Some(a) => a,
            None => s.cursor,
        },
    ensures
        action_text(s, Binding::Select(m), clip).2.is_none(),
{
}

/// Moving left from the start of the document and right from its end changes
/// nothing.
pub proof fn lemma_motion_clamping(s: EditorV, clip: Option<Seq<char>>)
    requires
        editor_wf(s),
        s.anchor.is_none(),
    ensures
        s.cursor == at(0, 0) ==> action_text(s, Binding::Move(BindingMotion::Left), clip) == (
            s.lines,
            s.cursor,
            s.anchor,
        ),
        s.cursor.line == s.lines.len() - 1 && s.cursor.index == s.lines.last().text.len()
            ==> action_text(
            s,
            Binding::Move(BindingMotion::Right),
            clip,
        ) == (s.lines, s.cursor, s.anchor),
{
}

/// Successive presses grow the selection: a single press leaves none, a
/// double press selects a range of the line, and a triple press selects the
/// whole line, which holds the double press's range.
pub proof fn lemma_click_growth(ls: Seq<LineV>, p: Cursor)
    requires
        lines_wf(ls),
        ls.len() <= usize::MAX,
        forall|i: int| 0 <= i < ls.len() ==> (#[trigger] ls[i]).text.len() <= usize::MAX,
    ensures
        click_selection(ls, p, ClickKind::Single).1.is_none(),
        ({
            let d = click_selection(ls, p, ClickKind::Double);
            let t = click_selection(ls, p, ClickKind::Triple);
            let q = clamp_pos(ls, p);
            &&& d.1.is_some() ==> {
                &&& t.1.is_some()
                &&& d.1.unwrap().line == d.0.line == t.0.line == t.1.unwrap().line == q.line
                &&& t.1.unwrap().index <= d.1.unwrap().index <= q.index <= d.0.index
                    <= t.0.index
            }
            &&& t.1.is_some() ==> t.1.unwrap() == at(q.line as int, 0) && t.0 == at(
                q.line as int,
                ls[q.line as int].text.len() as int,
            )
        }),
{
    let q = clamp_pos(ls, p);
    let t = word_classes(ls[q.line as int].text);
    let i = q.index as int;
    let w = i < t.len() && t[i];
    lemma_skip_left_range(t, i, w);
    lemma_skip_right_range(t, i, w);
}

proof fn lemma_wf_editing(s: EditorV)
    requires
        lines_wf(s.lines),
        pos_ok(s.lines, s.cursor),
        s.anchor.is_none(),
        s.open.is_some(),
        change_ok(s.lines, reverse_change(s.open.unwrap())),
        stack_ok(before_open(s), s.undo),
        s.redo.len() == 0,
    ensures
        editor_wf(s),
{
}

impl Editor {
    /// An empty document: one empty line, cursor at the origin, no history.
    pub fn new() -> (r: Editor)
        ensures
            r@.lines == empty_fragment(),
            r@.cursor == (Cursor { line: 0, index: 0 }),
            r@.anchor.is_none(),
            r@.undo.len() == 0,
            r@.redo.len() == 0,
            r@.open.is_none(),
            editor_wf(r@),
    {
        let lines = vec![Line { text: Vec::new(), ending: LineEnding::NoEnding }];
        let r = Editor {
            lines,
            cursor: Cursor { line: 0, index: 0 },
            anchor: None,
            undo_stack: Vec::new(),
            redo_stack: Vec::new(),
            open: None,
            page: 1,
            revision: 0,
        };
        proof {
            assert(r@.lines =~= empty_fragment());
            lemma_empty_fragment_wf();
            assert(r@.undo =~= Seq::<Seq<ItemV>>::empty());
            assert(r@.redo =~= Seq::<Seq<ItemV>>::empty());
        }
        r
    }

    pub open spec fn wf(&self) -> bool {
        editor_wf(self@)
    }

    /// Closes the change being recorded and, unless it is empty, pushes it
    /// onto the undo stack.
    fn commit(&mut self)
        requires
            editor_wf(old(self)@),
        ensures
            editor_wf(final(self)@),
            final(self)@.open.is_none(),
            final(self)@.lines == old(self)@.lines,
            final(self)@.cursor == old(self)@.cursor,
            final(self)@.anchor == old(self)@.anchor,
            final(self)@.redo == old(self)@.redo,
            final(self)@.page == old(self)@.page,
            history_base(final(self)@) == history_base(old(self)@),
            history_depth(final(self)@) == history_depth(old(self)@),
            match old(self)@.open {
                Some(o) => o.len() > 0 ==> final(self)@.undo == old(self)@.undo.push(o),
                None => final(self)@.undo == old(self)@.undo,
            },
            old(self)@.open.is_none() || old(self)@.open.unwrap().len() == 0 ==> final(self)@.undo
                == old(self)@.undo,
            final(self).revision_view() == old(self).revision_view(),
    {
        let ghost s = self@;
        match self.open.take() {
            Some(o) => {
                if !o.is_empty() {
                    let ghost ov = o@;
                    self.undo_stack.push(o);
                    proof {
                        assert(changes_view(self.undo_stack@) =~= s.undo.push(ov));
                        lemma_change_inverse(s.lines, reverse_change(ov));
                        lemma_stack_push(s.lines, s.undo, ov);
                    }
                } else {
                    proof {
                        assert(o@ =~= Seq::<ItemV>::empty());
                        lemma_apply_empty(s.lines);
                    }
                }
            },
            None => {},
        }
    }

    /// Opens a change for an edit: a new one when `fresh`, else the one being
    /// recorded if there is one. The redo stack is cleared.
    fn begin(&mut self, fresh: bool)
        requires
            editor_wf(old(self)@),
        ensures
            editor_wf(final(self)@),
            final(self)@.open.is_some(),
            final(self)@.redo.len() == 0,
            final(self)@.lines == old(self)@.lines,
            final(self)@.cursor == old(self)@.cursor,
            final(self)@.anchor == old(self)@.anchor,
            final(self)@.page == old(self)@.page,
            history_base(final(self)@) == history_base(old(self)@),
            history_depth(final(self)@) == history_depth(old(self)@),
            final(self).revision_view() == old(self).revision_view(),
            fresh ==> final(self)@.undo == committed_undo(old(self)@) && final(self)@.open == Some(
                Seq::<ItemV>::empty(),
            ),
            !fresh ==> final(self)@.undo == old(self)@.undo && before_open(final(self)@)
                == before_open(old(self)@),
    {
        let ghost s0 = self@;
        if fresh || self.open.is_none() {
            self.commit();
            self.open = Some(Change::new());
            proof {
                lemma_apply_empty(self@.lines);
            }
        }
        self.redo_stack.clear();
        proof {
            assert(self@.redo =~= Seq::<Seq<ItemV>>::empty());
            if fresh || s0.open.is_none() {
                assert(self@.open.unwrap() =~= Seq::<ItemV>::empty());
                if s0.open.is_some() && s0.open.unwrap().len() == 0 {
                    assert(s0.open.unwrap() =~= Seq::<ItemV>::empty());
                    lemma_apply_empty(s0.lines);
                }
            }
        }
    }

    /// Records and applies the deletion of the text from `a` to `b`.
    fn record_delete(&mut self, a: Cursor, b: Cursor)
        requires
            editor_wf(old(self)@),
            old(self)@.open.is_some(),
            old(self)@.redo.len() == 0,
            pos_ok(old(self)@.lines, a),
            pos_ok(old(self)@.lines, b),
            pos_le(a, b),
        ensures
            final(self)@.lines == splice(old(self)@.lines, a, b, empty_fragment()),
            final(self)@.cursor == old(self)@.cursor,
            final(self)@.anchor == old(self)@.anchor,
            final(self)@.open.is_some(),
            final(self)@.open.unwrap().len() > 0,
            final(self)@.redo.len() == 0,
            final(self)@.undo == old(self)@.undo,
            final(self)@.page == old(self)@.page,
            before_open(final(self)@) == before_open(old(self)@),
            lines_wf(final(self)@.lines),
            change_ok(final(self)@.lines, reverse_change(final(self)@.open.unwrap())),
            final(self).revision_view() == old(self).revision_view(),
    {
        let ghost s = self@;
        let text = extract_lines(&self.lines, a, b);
        let it = ChangeItem { start: a, end: b, text, insert: false };
        proof {
            crate::text::lemma_delete_inverse(s.lines, a, b);
            assert(item_ok(s.lines, it@));
        }
        crate::change::apply_item_lines(&mut self.lines, &it);
        let mut o = self.open.take().unwrap();
        let ghost ov = o@;
        proof {
            lemma_open_push(s.lines, ov, it@);
        }
        o.push(it);
        self.open = Some(o);
    }

    /// Records and applies the insertion of `f` at `a`.
    fn record_insert(&mut self, a: Cursor, f: Vec<Line>)
        requires
            lines_wf(old(self)@.lines),
            old(self)@.open.is_some(),
            change_ok(old(self)@.lines, reverse_change(old(self)@.open.unwrap())),
            pos_ok(old(self)@.lines, a),
            lines_wf(lines_view(f@)),
            end_fits(a, lines_view(f@)),
        ensures
            final(self)@.lines == splice(old(self)@.lines, a, a, lines_view(f@)),
            final(self)@.open.is_some(),
            final(self)@.open.unwrap().len() > 0,
            final(self)@.redo == old(self)@.redo,
            final(self)@.undo == old(self)@.undo,
            final(self)@.page == old(self)@.page,
            final(self)@.cursor == old(self)@.cursor,
            final(self)@.anchor == old(self)@.anchor,
            before_open(final(self)@) == before_open(old(self)@),
            lines_wf(final(self)@.lines),
            change_ok(final(self)@.lines, reverse_change(final(self)@.open.unwrap())),
            final(self).revision_view() == old(self).revision_view(),
    {
        let ghost s = self@;
        let ghost fv = lines_view(f@);
        let end = Cursor {
            line: a.line + (f.len() - 1),
            index: if f.len() == 1 {
                a.index + f[0].text.len()
            } else {
                f[f.len() - 1].text.len()
            },
        };
        assert(f@.len() == fv.len());
        assert(end == end_pos(a, fv));
        let it = ChangeItem { start: a, end, text: f, insert: true };
        proof {
            assert(item_ok(s.lines, it@));
        }
        crate::change::apply_item_lines(&mut self.lines, &it);
        let mut o = self.open.take().unwrap();
        let ghost ov = o@;
        proof {
            lemma_open_push(s.lines, ov, it@);
        }
        o.push(it);
        self.open = Some(o);
    }

    /// Replaces the text from `a` to `b` with `f`, recording the edit in the
    /// open change, and clears the selection.
    #[verifier::spinoff_prover]
    #[verifier::rlimit(30)]
    fn replace(&mut self, a: Cursor, b: Cursor, f: Vec<Line>)
        requires
            editor_wf(old(self)@),
            old(self)@.open.is_some(),
            old(self)@.redo.len() == 0,
            pos_ok(old(self)@.lines, a),
            pos_ok(old(self)@.lines, b),
            pos_le(a, b),
            lines_wf(lines_view(f@)),
        ensures
            editor_wf(final(self)@),
            (final(self)@.lines, final(self)@.cursor) == replace_effect(
                old(self)@,
                a,
                b,
                lines_view(f@),
            ),
            final(self)@.anchor.is_none(),
            final(self)@.open.is_some(),
            final(self)@.redo.len() == 0,
            final(self)@.undo == old(self)@.undo,
            final(self)@.page == old(self)@.page,
            before_open(final(self)@) == before_open(old(self)@),
            final(self).revision_view() == old(self).revision_view(),
    {
        let ghost s = self@;
        let ghost fv = lines_view(f@);
        assert(f@.len() == fv.len());
        self.anchor = None;
        proof {
            lemma_wf_editing(self@);
        }
        let k = f.len();
        let last_len = f[k - 1].text.len();
        let fits = k - 1 <= usize::MAX - a.line && (k != 1 || last_len <= usize::MAX - a.index);
        assert(fits == end_fits(a, fv));
        if !fits {
            return;
        }
        if a != b {
            proof {
                crate::text::lemma_delete_inverse(s.lines, a, b);
            }
            self.record_delete(a, b);
        }
        let is_empty = k == 1 && last_len == 0;
        if is_empty {
            proof {
                assert(fv[0].text =~= Seq::<char>::empty());
                assert(fv =~= empty_fragment());
            }
            self.cursor = a;
            proof {
                if a != b {
                    crate::text::lemma_delete_inverse(s.lines, a, b);
                }
                lemma_wf_editing(self@);
            }
        } else {
            assert(fv != empty_fragment()) by {
                if fv == empty_fragment() {
                    assert(fv[0].text.len() == 0);
                }
            }
            let ghost mid = self@.lines;
            proof {
                crate::text::lemma_insert_inverse(mid, a, fv);
            }
            let end = Cursor {
                line: a.line + (k - 1),
                index: if k == 1 {
                    a.index + last_len
                } else {
                    last_len
                },
            };
            self.record_insert(a, f);
            self.cursor = end;
            proof {
                lemma_wf_editing(self@);
            }
        }
    }

    /// Applies the reverse of `c`, moves the cursor to it, clears the
    /// selection, and hands back the change applied.
    fn apply_reversed(&mut self, c: Change) -> (x: Change)
        requires
            lines_wf(old(self)@.lines),
            change_ok(old(self)@.lines, reverse_change(c@)),
        ensures
            x@ == reverse_change(c@),
            final(self)@ == apply_to(old(self)@, x@),
            final(self).revision_view() == old(self).revision_view(),
    {
        let x = c.reverse();
        apply_change_lines(&mut self.lines, &x);
        let n = x.items.len();
        if n > 0 {
            let it = &x.items[n - 1];
            assert(x@.last() == x.items@[n - 1]@);
            if it.insert {
                self.cursor = it.end;
            } else {
                self.cursor = it.start;
            }
        }
        self.anchor = None;
        x
    }

    /// Undoes the last change: the one being recorded if it holds anything,
    /// else the top of the undo stack. Does nothing when there is nothing to
    /// undo.
    fn undo_inner(&mut self)
        requires
            old(self).wf(),
        ensures
            final(self).wf(),
            final(self)@ == undo_spec(old(self)@),
            final(self).revision_view() == old(self).revision_view(),
    {
        let ghost s = self@;
        let pending = self.open.take();
        let target: Option<Change> = match pending {
            Some(o) => if !o.is_empty() {
                Some(o)
            } else {
                proof {
                    assert(o@ =~= Seq::<ItemV>::empty());
                    lemma_apply_empty(s.lines);
                }
                let t = self.undo_stack.pop();
                proof {
                    if s.undo.len() > 0 {
                        assert(changes_view(self.undo_stack@) =~= s.undo.drop_last());
                    } else {
                        assert(changes_view(self.undo_stack@) =~= s.undo);
                    }
                }
                t
            },
            None => {
                let t = self.undo_stack.pop();
                proof {
                    if s.undo.len() > 0 {
                        assert(changes_view(self.undo_stack@) =~= s.undo.drop_last());
                    } else {
                        assert(changes_view(self.undo_stack@) =~= s.undo);
                    }
                }
                t
            },
        };
        match target {
            Some(c) => {
                let ghost cv = c@;
                proof {
                    if s.open.is_some() && s.open.unwrap().len() > 0 {
                        lemma_stack_move(s.lines, s.undo, s.redo, cv);
                    } else {
                        assert(cv == s.undo.last());
                        lemma_stack_move(s.lines, s.undo.drop_last(), s.redo, cv);
                    }
                }
                let x = self.apply_reversed(c);
                let ghost xv = x@;
                self.redo_stack.push(x);
                proof {
                    assert(changes_view(self.redo_stack@) =~= s.redo.push(xv));
                    if xv.len() > 0 {
                        lemma_change_cursor_ok(s.lines, xv, s.cursor);
                    } else {
                        assert(xv =~= Seq::<ItemV>::empty());
                    }
                    assert(self@ == undo_spec(s));
                }
            },
            None => {
                proof {
                    assert(self@ == undo_spec(s));
                }
            },
        }
    }

    /// Redoes the last undone change. Does nothing while a change is being
    /// recorded or when the redo stack is empty.
    fn redo_inner(&mut self)
        requires
            old(self).wf(),
        ensures
            final(self).wf(),
            final(self)@ == redo_spec(old(self)@),
            final(self).revision_view() == old(self).revision_view(),
    {
        let ghost s = self@;
        if self.open.is_some() {
            return;
        }
        match self.redo_stack.pop() {
            Some(r) => {
                let ghost rv = r@;
                proof {
                    assert(changes_view(self.redo_stack@) =~= s.redo.drop_last());
                    assert(rv == s.redo.last());
                    lemma_stack_move(s.lines, s.redo.drop_last(), s.undo, rv);
                }
                let x = self.apply_reversed(r);
                let ghost xv = x@;
                self.undo_stack.push(x);
                proof {
                    assert(changes_view(self.undo_stack@) =~= s.undo.push(xv));
                    if xv.len() > 0 {
                        lemma_change_cursor_ok(s.lines, xv, s.cursor);
                    } else {
                        assert(xv =~= Seq::<ItemV>::empty());
                    }
                    assert(self@ == redo_spec(s));
                }
            },
            None => {
                proof {
                    assert(changes_view(self.redo_stack@) =~= s.redo);
                }
            },
        }
    }

    /// The selection as an ordered range, or the empty range at the cursor.
    fn selection_range(&self) -> (r: (Cursor, Cursor))
        requires
            self.wf(),
        ensures
            r == sel_range(self@),
            pos_ok(self@.lines, r.0),
            pos_ok(self@.lines, r.1),
            pos_le(r.0, r.1),
    {
        match self.anchor {
            Some(a) => {
                let c = self.cursor;
                if a.line < c.line || (a.line == c.line && a.index <= c.index) {
                    (a, c)
                } else {
                    (c, a)
                }
            },
            None => (self.cursor, self.cursor),
        }
    }

    /// The range an edit action replaces and the text it puts there.
    fn plan(&self, b: Binding, clip: Option<&str>) -> (r: Option<(Cursor, Cursor, Vec<Line>)>)
        requires
            self.wf(),
        ensures
            match r {
                Some(p) => {
                    &&& edit_plan(self@, b, clip_view(clip)) == Some((p.0, p.1, lines_view(p.2@)))
                    &&& pos_ok(self@.lines, p.0)
                    &&& pos_ok(self@.lines, p.1)
                    &&& pos_le(p.0, p.1)
                    &&& lines_wf(lines_view(p.2@))
                },
                None => edit_plan(self@, b, clip_view(clip)).is_none(),
            },
    {
        let ghost s = self@;
        proof {
            lemma_fragments_wf();
        }
        let (lo, hi) = self.selection_range();
        let has_sel = self.anchor.is_some();
        let c = self.cursor;
        let page = self.page;
        match b {
            Binding::Enter => {
                let t = &self.lines[c.line].text;
                let mut j: usize = 0;
                proof {
                    assert(s.lines[c.line as int].text == t@);
                    lemma_indent_range(t@, 0);
                    lemma_newline_wf(t@);
                }
                while j < t.len() && is_whitespace(t[j])
                    invariant
                        j <= t.len(),
                        indent_end(t@, j as int) == indent_end(t@, 0),
                    decreases t.len() - j,
                {
                    j = j + 1;
                }
                let indent = crate::text::copy_range(t, 0, j);
                let f = vec![
                    Line { text: Vec::new(), ending: LineEnding::Lf },
                    Line { text: indent, ending: LineEnding::NoEnding },
                ];
                proof {
                    assert(lines_view(f@)[1].text =~= newline_fragment(t@)[1].text);
                    assert(lines_view(f@)[0].text =~= newline_fragment(t@)[0].text);
                    assert(lines_view(f@) =~= newline_fragment(t@));
                }
                Some((lo, hi, f))
            },
            Binding::Tab => {
                let f = vec![Line { text: vec![' ', ' ', ' ', ' '], ending: LineEnding::NoEnding }];
                assert(lines_view(f@)[0].text =~= tab_fragment()[0].text);
                assert(lines_view(f@) =~= tab_fragment());
                Some((lo, hi, f))
            },
            Binding::Unindent => {
                let t = &self.lines[c.line].text;
                let mut j: usize = 0;
                proof {
                    lemma_spaces_range(t@, 0);
                }
                while j < 4 && j < t.len() && t[j] == ' '
                    invariant
                        j <= 4,
                        j <= t.len(),
                        spaces_from(t@, j as int) == spaces_from(t@, 0),
                    decreases 4 - j,
                {
                    j = j + 1;
                }
                let f = vec![Line { text: Vec::new(), ending: LineEnding::NoEnding }];
                assert(lines_view(f@) =~= empty_fragment());
                assert(s.lines[c.line as int].text == t@);
                Some((Cursor { line: c.line, index: 0 }, Cursor { line: c.line, index: j }, f))
            },
            Binding::Backspace | Binding::Delete | Binding::BackspaceWord | Binding::DeleteWord
            | Binding::Cut => {
                let f = vec![Line { text: Vec::new(), ending: LineEnding::NoEnding }];
                assert(lines_view(f@) =~= empty_fragment());
                if has_sel || b == Binding::Cut {
                    Some((lo, hi, f))
                } else {
                    let (m, backward) = match b {
                        Binding::Backspace => (BindingMotion::Left, true),
                        Binding::Delete => (BindingMotion::Right, false),
                        Binding::BackspaceWord => (BindingMotion::WordLeft, true),
                        _ => (BindingMotion::WordRight, false),
                    };
                    let t = apply_motion(&self.lines, c, m, page);
                    proof {
                        assert(s.lines[c.line as int].text.len() == self.lines@[c.line as int].text.len());
                        assert(s.lines.len() == self.lines.len());
                        lemma_motion_order(s.lines, c, m, page as nat);
                    }
                    if backward {
                        Some((t, c, f))
                    } else {
                        Some((c, t, f))
                    }
                }
            },
            Binding::Paste => match clip {
                Some(text) => {
                    let f = parse_text(text);
                    Some((lo, hi, f))
                },
                None => None,
            },
            Binding::InsertChar(ch) => {
                let v = vec![ch];
                assert(v@ =~= seq![ch]);
                let f = parse_chars(&v);
                Some((lo, hi, f))
            },
            _ => None,
        }
    }

    /// The number of changes made to the editor's state so far, wrapping
    /// around; a drawing made at one revision is current as long as the
    /// revision stays the same.
    pub closed spec fn revision_view(&self) -> u64 {
        self.revision
    }

    pub fn revision(&self) -> (r: u64)
        ensures
            r == self.revision_view(),
    {
        self.revision
    }

    fn touch(&mut self)
        ensures
            final(self)@ == old(self)@,
            final(self).revision_view() == old(self).revision_view().wrapping_add(1),
    {
        self.revision = self.revision.wrapping_add(1);
    }

    /// Undoes the last change: the one being recorded if it holds anything,
    /// else the top of the undo stack. Does nothing when there is nothing to
    /// undo.
    pub fn undo(&mut self)
        requires
            old(self).wf(),
        ensures
            final(self).wf(),
            final(self)@ == undo_spec(old(self)@),
            final(self).revision_view() == old(self).revision_view().wrapping_add(1),
    {
        self.undo_inner();
        self.touch();
    }

    /// Redoes the last undone change. Does nothing while a change is being
    /// recorded or when the redo stack is empty.
    pub fn redo(&mut self)
        requires
            old(self).wf(),
        ensures
            final(self).wf(),
            final(self)@ == redo_spec(old(self)@),
            final(self).revision_view() == old(self).revision_view().wrapping_add(1),
    {
        self.redo_inner();
        self.touch();
    }

    /// The columns of line `i` that the selection covers (see
    /// `selected_columns_spec`).
    pub fn selected_columns(&self, i: usize) -> (r: Option<(usize, usize)>)
        requires
            self.wf(),
        ensures
            r == selected_columns_spec(self@, i as int),
    {
        match self.anchor {
            Some(_) => {
                let (a, b) = self.selection_range();
                if a.line <= i && i <= b.line {
                    let from = if i == a.line {
                        a.index
                    } else {
                        0
                    };
                    assert(self@.lines[i as int].text.len() == self.lines@[i as int].text@.len());
                    let len = self.lines[i].text.len();
                    let to = if i == b.line {
                        b.index
                    } else if len < usize::MAX {
                        len + 1
                    } else {
                        len
                    };
                    Some((from, to))
                } else {
                    None
                }
            },
            None => None,
        }
    }

    /// The selected text, if anything is selected.
    pub fn selection_text(&self) -> (r: Option<String>)
        requires
            self.wf(),
        ensures
            string_view(r) == selected_text(self@),
    {
        match self.anchor {
            Some(_) => {
                let (lo, hi) = self.selection_range();
                let frag = extract_lines(&self.lines, lo, hi);
                Some(serialize_text(&frag))
            },
            None => None,
        }
    }

    #[verifier::spinoff_prover]
    #[verifier::rlimit(40)]
    fn edit(&mut self, b: Binding, a: Cursor, e: Cursor, f: Vec<Line>)
        requires
            old(self).wf(),
            pos_ok(old(self)@.lines, a),
            pos_ok(old(self)@.lines, e),
            pos_le(a, e),
            lines_wf(lines_view(f@)),
            b == Binding::Unindent ==> a.line == e.line == old(self)@.cursor.line && a.index == 0
                && lines_view(f@) == empty_fragment(),
        ensures
            final(self).wf(),
            edit_step(old(self)@, final(self)@),
            final(self)@.page == old(self)@.page,
            final(self)@.anchor.is_none(),
            final(self)@.lines == replace_effect(old(self)@, a, e, lines_view(f@)).0,
            final(self)@.cursor == if b == Binding::Unindent {
                if old(self)@.cursor.index >= e.index {
                    at(old(self)@.cursor.line as int, old(self)@.cursor.index - e.index)
                } else {
                    at(old(self)@.cursor.line as int, 0)
                }
            } else {
                replace_effect(old(self)@, a, e, lines_view(f@)).1
            },
            final(self).revision_view() == old(self).revision_view(),
            records_edit(old(self)@, final(self)@, fresh_change(b)),
    {
        let ghost s = self@;
        let ghost fv = lines_view(f@);
        let cur = self.cursor;
        let fresh = match b {
            Binding::Backspace | Binding::Delete | Binding::InsertChar(_) => false,
            _ => true,
        };
        self.begin(fresh);
        let ghost s1 = self@;
        self.replace(a, e, f);
        proof {
            assert(history_depth(self@) <= s1.undo.len() + 1);
        }
        if b == Binding::Unindent {
            let n = e.index;
            let idx = if cur.index >= n {
                cur.index - n
            } else {
                0
            };
            proof {
                assert(end_fits(a, empty_fragment()));
                assert(fv == empty_fragment());
                assert(self@.lines == replace_lines(s.lines, a, e, empty_fragment()));
                if a != e {
                    crate::text::lemma_splice_index(s.lines, a, e, empty_fragment());
                    let t = s.lines[a.line as int].text;
                    let mid = crate::text::splice_mid(
                        t.take(0),
                        t.skip(n as int),
                        s.lines[a.line as int].ending,
                        empty_fragment(),
                    );
                    assert(mid[0].text =~= t.skip(n as int));
                    assert(self@.lines[a.line + 0] == mid[0]);
                    assert(self@.lines[a.line as int] == self@.lines[a.line + 0]);
                    assert(pos_ok(self@.lines, Cursor { line: cur.line, index: idx }));
                }
            }
            self.cursor = Cursor { line: cur.line, index: idx };
            proof {
                lemma_wf_editing(self@);
            }
        }
    }

    /// Moves the cursor: see `move_target`. Closes the change being recorded.
    fn move_cursor(&mut self, m: BindingMotion)
        requires
            old(self).wf(),
        ensures
            final(self).wf(),
            final(self)@.lines == old(self)@.lines,
            final(self)@.cursor == move_target(old(self)@, m),
            final(self)@.anchor.is_none(),
            final(self)@.open.is_none(),
            final(self)@.redo == old(self)@.redo,
            final(self)@.page == old(self)@.page,
            history_base(final(self)@) == history_base(old(self)@),
            history_depth(final(self)@) == history_depth(old(self)@),
            final(self).revision_view() == old(self).revision_view(),
    {
        let ghost s = self@;
        self.commit();
        let (lo, hi) = self.selection_range();
        let t = if self.anchor.is_some() {
            match m {
                BindingMotion::Home | BindingMotion::End | BindingMotion::DocumentStart
                | BindingMotion::DocumentEnd => apply_motion(&self.lines, self.cursor, m, self.page),
                BindingMotion::Left | BindingMotion::Up | BindingMotion::WordLeft
                | BindingMotion::PageUp => lo,
                _ => hi,
            }
        } else {
            apply_motion(&self.lines, self.cursor, m, self.page)
        };
        self.cursor = t;
        self.anchor = None;
    }

    /// Extends the selection with motion `m`; a selection that comes back to
    /// its anchor disappears.
    fn select(&mut self, m: BindingMotion)
        requires
            old(self).wf(),
        ensures
            final(self).wf(),
            (final(self)@.lines, final(self)@.cursor, final(self)@.anchor) == action_text(
                old(self)@,
                Binding::Select(m),
                None,
            ),
            final(self)@.undo == old(self)@.undo,
            final(self)@.redo == old(self)@.redo,
            final(self)@.open == old(self)@.open,
            final(self)@.page == old(self)@.page,
            final(self).revision_view() == old(self).revision_view(),
    {
        let a = match self.anchor {
            Some(a) => a,
            None => self.cursor,
        };
        let t = apply_motion(&self.lines, self.cursor, m, self.page);
        self.cursor = t;
        if t == a {
            self.anchor = None;
        } else {
            self.anchor = Some(a);
        }
    }

    /// Selects the whole document, unless it is one empty line.
    fn select_all(&mut self)
        requires
            old(self).wf(),
        ensures
            final(self).wf(),
            (final(self)@.lines, final(self)@.cursor, final(self)@.anchor) == action_text(
                old(self)@,
                Binding::SelectAll,
                None,
            ),
            final(self)@.undo == old(self)@.undo,
            final(self)@.redo == old(self)@.redo,
            final(self)@.open == old(self)@.open,
            final(self)@.page == old(self)@.page,
            final(self).revision_view() == old(self).revision_view(),
    {
        let ghost s = self@;
        assert(s.lines.len() == self.lines.len());
        assert(s.lines[0].text.len() == self.lines@[0].text.len());
        if self.lines.len() > 1 || self.lines[0].text.len() > 0 {
            let end = apply_motion(&self.lines, self.cursor, BindingMotion::DocumentEnd, self.page);
            self.anchor = Some(Cursor { line: 0, index: 0 });
            self.cursor = end;
        }
    }

    /// Performs an editing action. `clipboard` is what the clipboard holds,
    /// used by paste; the result is what to write to the clipboard, the
    /// selected text for copy and cut. Every editing action empties the redo
    /// stack; typed characters, backspaces and deletes extend the change
    /// being recorded, so a run of them is undone at once, while the other
    /// edits start a change of their own (see `fresh_change`).
    pub fn action(&mut self, b: Binding, clipboard: Option<&str>) -> (r: Option<String>)
        requires
            old(self).wf(),
        ensures
            final(self).wf(),
            (final(self)@.lines, final(self)@.cursor, final(self)@.anchor) == action_text(
                old(self)@,
                b,
                clip_view(clipboard),
            ),
            string_view(r) == action_output(old(self)@, b),
            final(self)@.page == old(self)@.page,
            edit_plan(old(self)@, b, clip_view(clipboard)).is_some() ==> edit_step(
                old(self)@,
                final(self)@,
            ) && records_edit(old(self)@, final(self)@, fresh_change(b)),
            b == Binding::Undo ==> final(self)@ == undo_spec(old(self)@),
            b == Binding::Redo ==> final(self)@ == redo_spec(old(self)@),
            b is Move ==> {
                &&& final(self)@.open.is_none()
                &&& final(self)@.redo == old(self)@.redo
                &&& history_base(final(self)@) == history_base(old(self)@)
                &&& history_depth(final(self)@) == history_depth(old(self)@)
            },
            keeps_history(old(self)@, b, clip_view(clipboard)) ==> {
                &&& final(self)@.undo == old(self)@.undo
                &&& final(self)@.redo == old(self)@.redo
                &&& final(self)@.open == old(self)@.open
            },
            final(self).revision_view() == old(self).revision_view().wrapping_add(1),
    {
        let out = match b {
            Binding::Copy | Binding::Cut => self.selection_text(),
            _ => None,
        };
        match self.plan(b, clipboard) {
            Some((a, e, f)) => {
                self.edit(b, a, e, f);
            },
            None => match b {
                Binding::Unfocus => {
                    self.anchor = None;
                },
                Binding::SelectAll => {
                    self.select_all();
                },
                Binding::Move(m) => {
                    self.move_cursor(m);
                },
                Binding::Select(m) => {
                    self.select(m);
                },
                Binding::Undo => {
                    self.undo_inner();
                },
                Binding::Redo => {
                    self.redo_inner();
                },
                _ => {},
            },
        }
        self.touch();
        out
    }

    /// Replaces the whole document with `text`, split into lines with their
    /// terminators kept. The cursor goes to the origin and the history is
    /// cleared: loading is not undoable.
    pub fn load_text(&mut self, text: &str)
        requires
            old(self).wf(),
        ensures
            final(self).wf(),
            final(self)@.lines == parse(text@),
            final(self)@.cursor == (Cursor { line: 0, index: 0 }),
            final(self)@.anchor.is_none(),
            final(self)@.undo.len() == 0,
            final(self)@.redo.len() == 0,
            final(self)@.open.is_none(),
            final(self)@.page == old(self)@.page,
            final(self).revision_view() == old(self).revision_view().wrapping_add(1),
    {
        self.lines = parse_text(text);
        self.cursor = Cursor { line: 0, index: 0 };
        self.anchor = None;
        self.undo_stack = Vec::new();
        self.redo_stack = Vec::new();
        self.open = None;
        proof {
            assert(self@.undo =~= Seq::<Seq<ItemV>>::empty());
            assert(self@.redo =~= Seq::<Seq<ItemV>>::empty());
        }
        self.touch();
    }

    /// The document as text: every line followed by its own terminator.
    pub fn serialize(&self) -> (r: String)
        ensures
            r@ == serialize_lines(self@.lines),
    {
        serialize_text(&self.lines)
    }

    pub fn line_count(&self) -> (r: usize)
        ensures
            r == self@.lines.len(),
    {
        self.lines.len()
    }

    /// The text of line `i`, without its terminator.
    pub fn line_text(&self, i: usize) -> (r: Option<String>)
        ensures
            match r {
                Some(t) => i < self@.lines.len() && t@ == self@.lines[i as int].text,
                None => i >= self@.lines.len(),
            },
    {
        if i < self.lines.len() {
            Some(string_of(&self.lines[i].text))
        } else {
            None
        }
    }

    /// The terminator of line `i`.
    pub fn line_ending(&self, i: usize) -> (r: Option<LineEnding>)
        ensures
            match r {
                Some(e) => i < self@.lines.len() && e == self@.lines[i as int].ending,
                None => i >= self@.lines.len(),
            },
    {
        if i < self.lines.len() {
            Some(self.lines[i].ending)
        } else {
            None
        }
    }

    pub fn cursor(&self) -> (r: Cursor)
        ensures
            r == self@.cursor,
    {
        self.cursor
    }

    /// The selection as an ordered range, if there is one.
    pub fn selection(&self) -> (r: Option<(Cursor, Cursor)>)
        requires
            self.wf(),
        ensures
            r == selection_bounds(self@),
    {
        match self.anchor {
            Some(_) => Some(self.selection_range()),
            None => None,
        }
    }

    /// Whether an undo would change anything.
    pub fn can_undo(&self) -> (r: bool)
        ensures
            r == (history_depth(self@) > 0),
    {
        let pending = match &self.open {
            Some(o) => !o.is_empty(),
            None => false,
        };
        pending || self.undo_stack.len() > 0
    }

    /// Whether a redo would change anything.
    pub fn can_redo(&self) -> (r: bool)
        ensures
            r == (self@.open.is_none() && self@.redo.len() > 0),
    {
        self.open.is_none() && self.redo_stack.len() > 0
    }

    /// Sets how many lines a page motion moves.
    pub fn set_page_lines(&mut self, n: usize)
        requires
            old(self).wf(),
        ensures
            final(self).wf(),
            final(self)@ == (EditorV { page: n as nat, ..old(self)@ }),
            final(self).revision_view() == old(self).revision_view().wrapping_add(1),
    {
        self.page = n;
        self.touch();
    }

    /// The position of the document nearest to `p`.
    pub fn clamp(&self, p: Cursor) -> (r: Cursor)
        requires
            self.wf(),
        ensures
            r == clamp_pos(self@.lines, p),
            pos_ok(self@.lines, r),
    {
        let last = self.lines.len() - 1;
        let l = if p.line <= last { p.line } else { last };
        let n = self.lines[l].text.len();
        Cursor { line: l, index: if p.index <= n { p.index } else { n } }
    }

    /// A press of kind `k` at `p` (see `click_selection`). Closes the change
    /// being recorded.
    pub fn click(&mut self, p: Cursor, k: ClickKind)
        requires
            old(self).wf(),
        ensures
            final(self).wf(),
            final(self)@.lines == old(self)@.lines,
            (final(self)@.cursor, final(self)@.anchor) == click_selection(old(self)@.lines, p, k),
            final(self)@.open.is_none(),
            final(self)@.redo == old(self)@.redo,
            final(self)@.page == old(self)@.page,
            history_base(final(self)@) == history_base(old(self)@),
            history_depth(final(self)@) == history_depth(old(self)@),
            final(self).revision_view() == old(self).revision_view().wrapping_add(1),
    {
        self.commit();
        let q = self.clamp(p);
        let l = q.line;
        let i = q.index;
        let ghost t = word_classes(self@.lines[l as int].text);
        assert(self@.lines[l as int].text == self.lines@[l as int].text@);
        match k {
            ClickKind::Single => {
                self.cursor = q;
                self.anchor = None;
            },
            ClickKind::Double => {
                let k = word_classes_of(&self.lines[l].text);
                let w = i < k.len() && k[i];
                let lo = skip_left_exec(&k, i, w);
                let hi = skip_right_exec(&k, i, w);
                proof {
                    lemma_skip_left_range(t, i as int, w);
                    lemma_skip_right_range(t, i as int, w);
                }
                if lo == hi {
                    self.cursor = q;
                    self.anchor = None;
                } else {
                    self.cursor = Cursor { line: l, index: hi };
                    self.anchor = Some(Cursor { line: l, index: lo });
                }
            },
            ClickKind::Triple => {
                let n = self.lines[l].text.len();
                if n == 0 {
                    self.cursor = q;
                    self.anchor = None;
                } else {
                    self.cursor = Cursor { line: l, index: n };
                    self.anchor = Some(Cursor { line: l, index: 0 });
                }
            },
        }
        self.touch();
    }

    /// Extends the selection to `p` while the pointer is dragged.
    pub fn drag(&mut self, p: Cursor)
        requires
            old(self).wf(),
        ensures
            final(self).wf(),
            final(self)@.lines == old(self)@.lines,
            (final(self)@.cursor, final(self)@.anchor) == drag_selection(old(self)@, p),
            final(self)@.undo == old(self)@.undo,
            final(self)@.redo == old(self)@.redo,
            final(self)@.open == old(self)@.open,
            final(self)@.page == old(self)@.page,
            final(self).revision_view() == old(self).revision_view().wrapping_add(1),
    {
        let q = self.clamp(p);
        let a = match self.anchor {
            Some(a) => a,
            None => self.cursor,
        };
        self.cursor = q;
        if q == a {
            self.anchor = None;
        } else {
            self.anchor = Some(a);
        }
        self.touch();
    }
}

} // verus!
