//! The integer arithmetic of the editor's view: the gutter, hit-testing and
//! scrolling. Lengths are in pixels, scroll amounts in thousandths of a line.
use vstd::prelude::*;
use crate::text::Cursor;

verus! {

/// Horizontal room left around the line numbers, in pixels.
pub const GUTTER_PADDING: u32 = 40;

/// Thousandths of a line in one line.
pub const MILLI: i64 = 1000;

/// The number of decimal digits of `n`.
pub open spec fn digits(n: nat) -> nat
    decreases n,
{
    if n < 10 {
        1
    } else {
        1 + digits(n / 10)
    }
}

/// How many characters the largest line number of a document with
/// `line_count` lines takes.
pub fn line_number_chars(line_count: usize) -> (r: usize)
    ensures
        r == digits(line_count as nat),
{
    let mut n = line_count;
    let mut chars: usize = 1;
    proof {
        lemma_digits_le(line_count as nat);
    }
    while n >= 10
        invariant
            chars + digits(n as nat) == 1 + digits(line_count as nat),
            digits(n as nat) <= n || n == 0,
            1 <= chars,
            chars + n <= 1 + line_count,
        decreases n,
    {
        proof {
            lemma_digits_le(n as nat);
            lemma_digits_le((n / 10) as nat);
        }
        n = n / 10;
        chars = chars + 1;
    }
    chars
}

proof fn lemma_digits_le(n: nat)
    ensures
        n >= 1 ==> digits(n) <= n,
    decreases n,
{
    if n >= 10 {
        lemma_digits_le(n / 10);
    }
}

/// The gutter's width: the line numbers, each `glyph_w` pixels wide per
/// digit, plus the padding.
pub open spec fn gutter_width_spec(line_count: nat, glyph_w: nat) -> int {
    digits(line_count) * glyph_w + GUTTER_PADDING
}

/// The gutter's width for a document of `line_count` lines; `None` if it
/// does not fit in a `u32`.
pub fn gutter_width(line_count: usize, glyph_w: u32) -> (r: Option<u32>)
    ensures
        match r {
            Some(w) => w == gutter_width_spec(line_count as nat, glyph_w as nat),
            None => gutter_width_spec(line_count as nat, glyph_w as nat) > u32::MAX,
        },
{
    let d = line_number_chars(line_count) as u128;
    proof {
        assert(d * (glyph_w as u128) <= 0xffff_ffff_ffff_ffff * 0xffff_ffff) by (nonlinear_arith)
            requires
                d <= 0xffff_ffff_ffff_ffff,
                glyph_w <= 0xffff_ffff,
        ;
    }
    let w = d * (glyph_w as u128) + GUTTER_PADDING as u128;
    if w <= u32::MAX as u128 {
        Some(w as u32)
    } else {
        None
    }
}

/// The point of the text area under the pointer at `(px, py)` (relative to
/// the widget): the padding and the gutter are taken off, the horizontal
/// scroll is added. `None` when the pointer is over the gutter or outside
/// the text area of size `view_w` by `view_h`.
pub open spec fn text_point_spec(
    px: int,
    py: int,
    pad_left: int,
    pad_top: int,
    gutter: int,
    view_w: int,
    view_h: int,
    scroll_x: int,
) -> Option<(int, int)> {
    let x = px - pad_left - gutter;
    let y = py - pad_top;
    if 0 <= x < view_w && 0 <= y < view_h {
        Some((x + scroll_x, y))
    } else {
        None
    }
}

pub fn text_point(
    px: i32,
    py: i32,
    pad_left: i32,
    pad_top: i32,
    gutter: i32,
    view_w: i32,
    view_h: i32,
    scroll_x: i32,
) -> (r: Option<(i64, i64)>)
    ensures
        match r {
            Some(p) => text_point_spec(
                px as int,
                py as int,
                pad_left as int,
                pad_top as int,
                gutter as int,
                view_w as int,
                view_h as int,
                scroll_x as int,
            ) == Some((p.0 as int, p.1 as int)),
            None => text_point_spec(
                px as int,
                py as int,
                pad_left as int,
                pad_top as int,
                gutter as int,
                view_w as int,
                view_h as int,
                scroll_x as int,
            ).is_none(),
        },
{
    let x = px as i64 - pad_left as i64 - gutter as i64;
    let y = py as i64 - pad_top as i64;
    if 0 <= x && x < view_w as i64 && 0 <= y && y < view_h as i64 {
        Some((x + scroll_x as i64, y))
    } else {
        None
    }
}

/// The text position at point `(x, y)` of the text area in a monospace
/// layout: the line under `y` counted from the first visible line, and the
/// column under `x`, each cut down to `usize::MAX`.
pub open spec fn position_at_spec(x: nat, y: nat, first_line: nat, line_h: nat, char_w: nat) -> Cursor {
    let line = first_line + y / line_h;
    let col = x / char_w;
    Cursor {
        line: if line <= usize::MAX {
            line as usize
        } else {
            usize::MAX
        },
        index: if col <= usize::MAX {
            col as usize
        } else {
            usize::MAX
        },
    }
}

pub fn position_at(x: u64, y: u64, first_line: usize, line_h: u32, char_w: u32) -> (r: Cursor)
    requires
        line_h > 0,
        char_w > 0,
    ensures
        r == position_at_spec(x as nat, y as nat, first_line as nat, line_h as nat, char_w as nat),
{
    let row: u64 = y / (line_h as u64);
    let col: u64 = x / (char_w as u64);
    let line: usize = if (row as u128) <= (usize::MAX - first_line) as u128 {
        first_line + row as usize
    } else {
        usize::MAX
    };
    let index: usize = if (col as u128) <= usize::MAX as u128 {
        col as usize
    } else {
        usize::MAX
    };
    Cursor { line, index }
}

/// The scroll of a wheel turned by `lines_milli` thousandths of a line, in
/// thousandths of a line: upwards is negative, and a turn of less than a
/// quarter line still scrolls a whole line.
pub open spec fn wheel_lines_spec(lines_milli: int) -> int {
    if lines_milli == 0 {
        0
    } else if lines_milli > 0 {
        -(if lines_milli * 4 >= MILLI {
            lines_milli * 4
        } else {
            MILLI as int
        })
    } else {
        if -lines_milli * 4 >= MILLI {
            -lines_milli * 4
        } else {
            MILLI as int
        }
    }
}

pub fn wheel_lines(lines_milli: i32) -> (r: i64)
    ensures
        r == wheel_lines_spec(lines_milli as int),
{
    let y = lines_milli as i64;
    if y == 0 {
        0
    } else if y > 0 {
        if y * 4 >= MILLI {
            -(y * 4)
        } else {
            -MILLI
        }
    } else {
        if -y * 4 >= MILLI {
            -y * 4
        } else {
            MILLI
        }
    }
}

/// The scroll of a trackpad moved by `pixels` pixels, in thousandths of a
/// line: a quarter line per pixel, upwards negative.
pub fn pixel_lines(pixels: i32) -> (r: i64)
    ensures
        r == -(pixels as int) * (MILLI / 4),
{
    -(pixels as i64) * (MILLI / 4)
}

/// Adds `delta` to the fraction `partial` left from earlier scrolls: the
/// whole lines to scroll now, and the fraction (of the same sign as the
/// total, under one line) kept for the next scroll.
pub open spec fn accumulate_spec(partial: int, delta: int) -> (int, int) {
    let total = partial + delta;
    let whole = if total >= 0 {
        total / (MILLI as int)
    } else {
        -((-total) / (MILLI as int))
    };
    (whole, total - whole * MILLI)
}

pub fn accumulate_scroll(partial: i64, delta: i64) -> (r: (i64, i64))
    requires
        -MILLI < partial < MILLI,
        -0x1000_0000_0000 <= delta <= 0x1000_0000_0000,
    ensures
        r.0 == accumulate_spec(partial as int, delta as int).0,
        r.1 == accumulate_spec(partial as int, delta as int).1,
        -MILLI < r.1 < MILLI,
        r.0 * MILLI + r.1 == partial + delta,
{
    let total = partial + delta;
    let whole = if total >= 0 {
        total / MILLI
    } else {
        -((-total) / MILLI)
    };
    let rest = total - whole * MILLI;
    proof {
        if total >= 0 {
            assert(0 <= rest < MILLI) by (nonlinear_arith)
                requires
                    whole == total / 1000,
                    total >= 0,
                    rest == total - whole * 1000,
            ;
        } else {
            assert(-MILLI < rest <= 0) by (nonlinear_arith)
                requires
                    whole == -((-total) / 1000),
                    total < 0,
                    rest == total - whole * 1000,
            ;
        }
    }
    (whole, rest)
}

/// The horizontal scroll after moving it by `delta` pixels: at least zero
/// and at most the widest line's overhang past the view.
pub open spec fn horizontal_scroll_spec(current: int, delta: int, max_line_w: int, view_w: int) -> int {
    let moved = current + delta;
    let upper = max_line_w - view_w;
    let capped = if moved <= upper {
        moved
    } else {
        upper
    };
    if capped >= 0 {
        capped
    } else {
        0
    }
}

pub fn horizontal_scroll(current: i32, delta: i32, max_line_w: i32, view_w: i32) -> (r: i64)
    ensures
        r == horizontal_scroll_spec(current as int, delta as int, max_line_w as int, view_w as int),
        r >= 0,
{
    let moved = current as i64 + delta as i64;
    let upper = max_line_w as i64 - view_w as i64;
    let capped = if moved <= upper {
        moved
    } else {
        upper
    };
    if capped >= 0 {
        capped
    } else {
        0
    }
}

/// The validity of a cached drawing of the editor: it is current exactly when
/// it was made at the editor's present revision and the view (scroll, size,
/// metrics) has not changed since.
pub struct RenderCache {
    drawn_at: Option<u64>,
    view_changed: bool,
}

impl RenderCache {
    pub closed spec fn drawn_at_view(&self) -> Option<u64> {
        self.drawn_at
    }

    pub closed spec fn view_changed_view(&self) -> bool {
        self.view_changed
    }

    /// The drawing has to be made again for the editor at `revision`.
    pub open spec fn stale(&self, revision: u64) -> bool {
        self.drawn_at_view() != Some(revision) || self.view_changed_view()
    }

    /// A cache holding no drawing.
    pub fn new() -> (r: RenderCache)
        ensures
            forall|rev: u64| r.stale(rev),
    {
        RenderCache { drawn_at: None, view_changed: true }
    }

    /// Records that the view was scrolled, resized or given new metrics.
    pub fn invalidate(&mut self)
        ensures
            forall|rev: u64| final(self).stale(rev),
    {
        self.view_changed = true;
    }

    /// Whether the drawing has to be made again for the editor at `revision`.
    pub fn needs_redraw(&self, revision: u64) -> (r: bool)
        ensures
            r == self.stale(revision),
    {
        match self.drawn_at {
            Some(d) => d != revision || self.view_changed,
            None => true,
        }
    }

    /// Records a drawing made for the editor at `revision`.
    pub fn mark_drawn(&mut self, revision: u64)
        ensures
            !final(self).stale(revision),
            forall|rev: u64| rev != revision ==> final(self).stale(rev),
    {
        self.drawn_at = Some(revision);
        self.view_changed = false;
    }
}

} // verus!
