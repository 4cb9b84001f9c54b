//! Where each motion takes the cursor.
use vstd::prelude::*;
use crate::binding::BindingMotion;
use crate::text::{lines_view, lines_wf, pos_ok, Cursor, Line, LineV};

verus! {

/// What `char::is_alphanumeric` says of `c`.
pub uninterp spec fn alphanumeric(c: char) -> bool;

/// Relies on `char::is_alphanumeric`: whether `c` is alphabetic or numeric.
#[verifier::external_body]
fn is_alphanumeric(c: char) -> (r: bool)
    ensures
        r == alphanumeric(c),
{
    c.is_alphanumeric()
}

/// A character that belongs to a word: alphanumeric or an underscore.
pub open spec fn word_char(c: char) -> bool {
    alphanumeric(c) || c == '_'
}

pub fn is_word_char(c: char) -> (r: bool)
    ensures
        r == word_char(c),
{
    c == '_' || is_alphanumeric(c)
}

/// For each character, whether it belongs to a word.
pub open spec fn word_classes(t: Seq<char>) -> Seq<bool> {
    t.map_values(|c: char| word_char(c))
}

/// From `i`, moves left over the positions whose class is `w`.
pub open spec fn skip_left(k: Seq<bool>, i: int, w: bool) -> int
    decreases i,
{
    if 0 < i <= k.len() && k[i - 1] == w {
        skip_left(k, i - 1, w)
    } else {
        i
    }
}

/// From `i`, moves right over the positions whose class is `w`.
pub open spec fn skip_right(k: Seq<bool>, i: int, w: bool) -> int
    decreases k.len() - i,
{
    if 0 <= i < k.len() && k[i] == w {
        skip_right(k, i + 1, w)
    } else {
        i
    }
}

/// The start of the word at or before `i`.
pub open spec fn word_left(t: Seq<char>, i: int) -> int {
    let k = word_classes(t);
    skip_left(k, skip_left(k, i, false), true)
}

/// The end of the word at or after `i`.
pub open spec fn word_right(t: Seq<char>, i: int) -> int {
    let k = word_classes(t);
    skip_right(k, skip_right(k, i, false), true)
}

pub proof fn lemma_skip_left_range(k: Seq<bool>, i: int, w: bool)
    requires
        0 <= i <= k.len(),
    ensures
        0 <= skip_left(k, i, w) <= i,
    decreases i,
{
    if 0 < i && k[i - 1] == w {
        lemma_skip_left_range(k, i - 1, w);
    }
}

pub proof fn lemma_skip_right_range(k: Seq<bool>, i: int, w: bool)
    requires
        0 <= i <= k.len(),
    ensures
        i <= skip_right(k, i, w) <= k.len(),
    decreases k.len() - i,
{
    if i < k.len() && k[i] == w {
        lemma_skip_right_range(k, i + 1, w);
    }
}

/// Classifies each character of `t` as word or not.
pub fn word_classes_of(t: &Vec<char>) -> (r: Vec<bool>)
    ensures
        r@ == word_classes(t@),
{
    let mut r: Vec<bool> = Vec::new();
    let mut i: usize = 0;
    while i < t.len()
        invariant
            i <= t.len(),
            r@ == word_classes(t@).take(i as int),
        decreases t.len() - i,
    {
        let c = is_word_char(t[i]);
        r.push(c);
        i = i + 1;
        proof {
            assert(r@ =~= word_classes(t@).take(i as int));
        }
    }
    proof {
        assert(r@ =~= word_classes(t@));
    }
    r
}

/// The position reached from `i` by moving left over positions of class `w`.
pub fn skip_left_exec(k: &Vec<bool>, i: usize, w: bool) -> (r: usize)
    requires
        i <= k.len(),
    ensures
        r == skip_left(k@, i as int, w),
{
    let mut j = i;
    while j > 0 && k[j - 1] == w
        invariant
            j <= i <= k.len(),
            skip_left(k@, j as int, w) == skip_left(k@, i as int, w),
        decreases j,
    {
        j = j - 1;
    }
    j
}

/// The position reached from `i` by moving right over positions of class `w`.
pub fn skip_right_exec(k: &Vec<bool>, i: usize, w: bool) -> (r: usize)
    requires
        i <= k.len(),
    ensures
        r == skip_right(k@, i as int, w),
{
    let mut j = i;
    while j < k.len() && k[j] == w
        invariant
            i <= j <= k.len(),
            skip_right(k@, j as int, w) == skip_right(k@, i as int, w),
        decreases k.len() - j,
    {
        j = j + 1;
    }
    j
}

pub open spec fn line_len(ls: Seq<LineV>, l: int) -> nat {
    ls[l].text.len()
}

pub open spec fn min_nat(a: int, b: int) -> int {
    if a <= b {
        a
    } else {
        b
    }
}

pub open spec fn at(line: int, index: int) -> Cursor {
    Cursor { line: line as usize, index: index as usize }
}

/// The cursor after motion `m` from `c`; `page` is the number of lines that a
/// page motion moves. Every motion stops at the edges of the text.
///
/// Word motions never leave the line: at the start of a line `WordLeft`
/// stays, and at its end `WordRight` stays, rather than stepping to the
/// neighbouring line. This is what makes two word selections from the start
/// of `abc` followed by a cut take exactly `abc`, leaving the line break;
/// as a consequence a word deletion at the start (`BackspaceWord`) or end
/// (`DeleteWord`) of a line deletes nothing. Columns count characters, not
/// bytes, so no position falls inside a character.
pub open spec fn motion_target(ls: Seq<LineV>, c: Cursor, m: BindingMotion, page: nat) -> Cursor {
    let l = c.line as int;
    let i = c.index as int;
    let last = ls.len() - 1;
    match m {
        BindingMotion::Left => if i > 0 {
            at(l, i - 1)
        } else if l > 0 {
            at(l - 1, line_len(ls, l - 1) as int)
        } else {
            c
        },
        BindingMotion::Right => if i < line_len(ls, l) {
            at(l, i + 1)
        } else if l < last {
            at(l + 1, 0)
        } else {
            c
        },
        BindingMotion::Up => if l > 0 {
            at(l - 1, min_nat(i, line_len(ls, l - 1) as int))
        } else {
            c
        },
        BindingMotion::Down => if l < last {
            at(l + 1, min_nat(i, line_len(ls, l + 1) as int))
        } else {
            c
        },
        BindingMotion::PageUp => {
            let t = if l >= page {
                l - page
            } else {
                0
            };
            at(t, min_nat(i, line_len(ls, t) as int))
        },
        BindingMotion::PageDown => {
            let t = min_nat(l + page, last);
            at(t, min_nat(i, line_len(ls, t) as int))
        },
        BindingMotion::Home => at(l, 0),
        BindingMotion::End => at(l, line_len(ls, l) as int),
        BindingMotion::WordLeft => at(l, word_left(ls[l].text, i)),
        BindingMotion::WordRight => at(l, word_right(ls[l].text, i)),
        BindingMotion::DocumentStart => at(0, 0),
        BindingMotion::DocumentEnd => at(last, line_len(ls, last) as int),
    }
}

/// Computes the cursor after motion `m` from `c`.
pub fn apply_motion(ls: &Vec<Line>, c: Cursor, m: BindingMotion, page: usize) -> (r: Cursor)
    requires
        lines_wf(lines_view(ls@)),
        pos_ok(lines_view(ls@), c),
    ensures
        r == motion_target(lines_view(ls@), c, m, page as nat),
        pos_ok(lines_view(ls@), r),
{
    let ghost lv = lines_view(ls@);
    assert(lv.len() == ls.len());
    assert(forall|k: int| 0 <= k < ls.len() ==> lv[k].text.len() == (#[trigger] ls@[k]).text.len());
    let l = c.line;
    let i = c.index;
    let last = ls.len() - 1;
    let len = ls[l].text.len();
    let r = match m {
        BindingMotion::Left => if i > 0 {
            Cursor { line: l, index: i - 1 }
        } else if l > 0 {
            Cursor { line: l - 1, index: ls[l - 1].text.len() }
        } else {
            c
        },
        BindingMotion::Right => if i < len {
            Cursor { line: l, index: i + 1 }
        } else if l < last {
            Cursor { line: l + 1, index: 0 }
        } else {
            c
        },
        BindingMotion::Up => if l > 0 {
            let n = ls[l - 1].text.len();
            Cursor { line: l - 1, index: if i <= n { i } else { n } }
        } else {
            c
        },
        BindingMotion::Down => if l < last {
            let n = ls[l + 1].text.len();
            Cursor { line: l + 1, index: if i <= n { i } else { n } }
        } else {
            c
        },
        BindingMotion::PageUp => {
            let t = if l >= page { l - page } else { 0 };
            let n = ls[t].text.len();
            Cursor { line: t, index: if i <= n { i } else { n } }
        },
        BindingMotion::PageDown => {
            let t = if page <= last - l { l + page } else { last };
            let n = ls[t].text.len();
            Cursor { line: t, index: if i <= n { i } else { n } }
        },
        BindingMotion::Home => Cursor { line: l, index: 0 },
        BindingMotion::End => Cursor { line: l, index: len },
        BindingMotion::WordLeft => {
            let k = word_classes_of(&ls[l].text);
            let j = skip_left_exec(&k, i, false);
            proof {
                lemma_skip_left_range(k@, i as int, false);
                lemma_skip_left_range(k@, j as int, true);
            }
            Cursor { line: l, index: skip_left_exec(&k, j, true) }
        },
        BindingMotion::WordRight => {
            let k = word_classes_of(&ls[l].text);
            let j = skip_right_exec(&k, i, false);
            proof {
                lemma_skip_right_range(k@, i as int, false);
                lemma_skip_right_range(k@, j as int, true);
            }
            Cursor { line: l, index: skip_right_exec(&k, j, true) }
        },
        BindingMotion::DocumentStart => Cursor { line: 0, index: 0 },
        BindingMotion::DocumentEnd => Cursor { line: last, index: ls[last].text.len() },
    };
    r
}

} // verus!
