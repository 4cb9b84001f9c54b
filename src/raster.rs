//! Painting solid rectangles into a pixel buffer, with alpha blending.
use vstd::prelude::*;

verus! {

/// The size of a drawing area or of a rectangle, in pixels.
#[derive(Clone, Copy, Debug, PartialEq, Eq, Structural)]
pub struct Canvas {
    pub w: i32,
    pub h: i32,
}

/// A position in pixels.
#[derive(Clone, Copy, Debug, PartialEq, Eq, Structural)]
pub struct Offset {
    pub x: i32,
    pub y: i32,
}

/// A color given as `0xAARRGGBB` in the byte order the buffer stores
/// (`0xAABBGGRR`): the red and blue channels change places.
pub open spec fn native_color(c: u32) -> u32 {
    (c & 0xFF00FF00) | ((c & 0x00FF0000) >> 16u32) | ((c & 0x000000FF) << 16u32)
}

pub open spec fn alpha_of(c: u32) -> u32 {
    (c >> 24u32) & 0xFF
}

/// `color` laid over `current` with `color`'s alpha; an empty pixel (alpha
/// zero) takes `color` as it is.
pub open spec fn blend_spec(current: u32, color: u32) -> u32 {
    let alpha = alpha_of(color);
    let n_alpha = (255 - alpha) as u32;
    if current & 0xFF000000 == 0 {
        color
    } else {
        let rb = ((n_alpha * (current & 0x00FF00FF) + alpha * (color & 0x00FF00FF)) as u32) >> 8u32;
        let ag = (n_alpha * ((current & 0xFF00FF00) >> 8u32) + alpha * (0x01000000u32 | ((color
            & 0x0000FF00) >> 8u32))) as u32;
        (rb & 0x00FF00FF) | (ag & 0xFF00FF00)
    }
}

/// A pixel after painting `color` (in buffer order) over it: unchanged for
/// a transparent color, replaced for an opaque one, blended otherwise.
pub open spec fn paint(current: u32, color: u32) -> u32 {
    let a = alpha_of(color);
    if a == 0 {
        current
    } else if a == 255 {
        color
    } else {
        blend_spec(current, color)
    }
}

fn to_native(c: u32) -> (r: u32)
    ensures
        r == native_color(c),
{
    (c & 0xFF00FF00) | ((c & 0x00FF0000) >> 16) | ((c & 0x000000FF) << 16)
}

fn blend(current: u32, color: u32) -> (r: u32)
    ensures
        r == blend_spec(current, color),
{
    let alpha = (color >> 24) & 0xFF;
    assert(alpha <= 255) by (bit_vector)
        requires
            alpha == (color >> 24u32) & 0xFF,
    ;
    let n_alpha = 255 - alpha;
    if current & 0xFF000000 == 0 {
        color
    } else {
        let a1 = current & 0x00FF00FF;
        let c1 = color & 0x00FF00FF;
        let a2 = (current & 0xFF00FF00) >> 8;
        let c2 = 0x01000000u32 | ((color & 0x0000FF00) >> 8);
        assert(a1 <= 0x00FF00FF && c1 <= 0x00FF00FF) by (bit_vector)
            requires
                a1 == current & 0x00FF00FF,
                c1 == color & 0x00FF00FF,
        ;
        assert(a2 <= 0x00FF00FF && c2 <= 0x010000FF) by (bit_vector)
            requires
                a2 == (current & 0xFF00FF00) >> 8u32,
                c2 == 0x01000000u32 | ((color & 0x0000FF00) >> 8u32),
        ;
        assert(n_alpha * a1 + alpha * c1 <= 0xFE01FE01) by (nonlinear_arith)
            requires
                n_alpha + alpha == 255,
                a1 <= 0x00FF00FF,
                c1 <= 0x00FF00FF,
        ;
        assert(n_alpha * a2 + alpha * c2 <= 0xFF00FE01) by (nonlinear_arith)
            requires
                n_alpha + alpha == 255,
                a2 <= 0x00FF00FF,
                c2 <= 0x010000FF,
        ;
        let rb = (n_alpha * a1 + alpha * c1) >> 8;
        let ag = n_alpha * a2 + alpha * c2;
        (rb & 0x00FF00FF) | (ag & 0xFF00FF00)
    }
}

/// Pixel `k` of a canvas `w` pixels wide lies in the rectangle of size
/// `size` at `at`.
pub open spec fn in_rect(k: int, w: int, size: Canvas, at: Offset) -> bool {
    let col = k % w;
    let row = k / w;
    &&& at.x <= col < at.x + size.w
    &&& at.y <= row < at.y + size.h
}

proof fn lemma_pixel_index(y: int, x: int, w: int, h: int)
    requires
        0 <= y < h,
        0 <= x < w,
    ensures
        y * w + x < w * h,
        (y * w + x) / w == y,
        (y * w + x) % w == x,
{
    assert(y * w + x < w * h) by (nonlinear_arith)
        requires
            0 <= y < h,
            0 <= x < w,
    ;
    vstd::arithmetic::div_mod::lemma_fundamental_div_mod_converse(y * w + x, w, y, x);
}

proof fn lemma_pixel_bounds(k: int, w: int, h: int)
    requires
        0 <= k < w * h,
        w > 0,
    ensures
        0 <= k % w < w,
        0 <= k / w < h,
{
    vstd::arithmetic::div_mod::lemma_div_pos_is_pos(k, w);
    vstd::arithmetic::div_mod::lemma_mod_bound(k, w);
    vstd::arithmetic::div_mod::lemma_fundamental_div_mod(k, w);
    assert(k / w < h) by (nonlinear_arith)
        requires
            k == w * (k / w) + k % w,
            0 <= k % w,
            k < w * h,
            w > 0,
    ;
}

/// Paints `color` (`0xAARRGGBB`) over the part of the rectangle of size
/// `size` at `screen` that lies on the canvas, whose pixels the start of
/// `buffer` holds row by row; pixels past the canvas are left alone.
pub fn draw_rect(buffer: &mut Vec<u32>, canvas: Canvas, size: Canvas, screen: Offset, color: u32)
    requires
        canvas.w >= 0,
        canvas.h >= 0,
        old(buffer).len() >= canvas.w * canvas.h,
    ensures
        final(buffer).len() == old(buffer).len(),
        forall|k: int|
            0 <= k < old(buffer).len() ==> #[trigger] final(buffer)@[k] == if k < canvas.w
                * canvas.h && in_rect(
                k,
                canvas.w as int,
                size,
                screen,
            ) {
                paint(old(buffer)@[k], native_color(color))
            } else {
                old(buffer)@[k]
            },
{
    let ghost start = buffer@;
    let c = to_native(color);
    let a = (c >> 24) & 0xFF;
    if a == 0 || canvas.w == 0 || canvas.h == 0 {
        return;
    }
    let w = canvas.w as i64;
    let x0: i64 = if screen.x >= 0 { screen.x as i64 } else { 0 };
    let x1: i64 = if (screen.x as i64 + size.w as i64) <= w {
        screen.x as i64 + size.w as i64
    } else {
        w
    };
    let y0: i64 = if screen.y >= 0 { screen.y as i64 } else { 0 };
    let y1: i64 = if (screen.y as i64 + size.h as i64) <= canvas.h as i64 {
        screen.y as i64 + size.h as i64
    } else {
        canvas.h as i64
    };
    let ghost len = start.len() as int;
    let ghost area = canvas.w * canvas.h;
    proof {
        assert forall|k: int| 0 <= k < area && in_rect(k, w as int, size, screen) implies x0 <= k
            % (w as int) < x1 && y0 <= k / (w as int) < y1 by {
            lemma_pixel_bounds(k, w as int, canvas.h as int);
        }
    }
    let mut y = y0;
    while y < y1
        invariant
            buffer@.len() == len,
            area == canvas.w * canvas.h,
            len >= area,
            w == canvas.w,
            w > 0,
            a == alpha_of(c),
            a != 0,
            c == native_color(color),
            0 <= y0,
            y0 <= y,
            0 <= x0,
            y1 <= canvas.h,
            x1 <= w,
            screen.x <= x0,
            x1 <= screen.x + size.w,
            screen.y <= y0,
            y1 <= screen.y + size.h,
            forall|k: int|
                0 <= k < area && in_rect(k, w as int, size, screen) ==> x0 <= k % (w as int) < x1
                    && y0 <= k / (w as int) < y1,
            forall|k: int|
                0 <= k < len ==> #[trigger] buffer@[k] == if k < area && in_rect(k, w as int, size, screen) && k
                    / (w as int) < y {
                    paint(start[k], c)
                } else {
                    start[k]
                },
        decreases y1 - y,
    {
        let mut x = x0;
        while x < x1
            invariant
                buffer@.len() == len,
                area == canvas.w * canvas.h,
                len >= area,
                w == canvas.w,
                w > 0,
                a == alpha_of(c),
                a != 0,
                0 <= y0 <= y < y1 <= canvas.h,
                0 <= x0,
                x0 <= x,
                x1 <= w,
                screen.x <= x0,
                x1 <= screen.x + size.w,
                screen.y <= y0,
                y1 <= screen.y + size.h,
                forall|k: int|
                    0 <= k < area && in_rect(k, w as int, size, screen) ==> x0 <= k % (w as int) < x1
                        && y0 <= k / (w as int) < y1,
                forall|k: int|
                    0 <= k < len ==> #[trigger] buffer@[k] == if k < area && in_rect(k, w as int, size, screen)
                        && (k / (w as int) < y || (k / (w as int) == y && k % (w as int) < x)) {
                        paint(start[k], c)
                    } else {
                        start[k]
                    },
            decreases x1 - x,
        {
            proof {
                lemma_pixel_index(y as int, x as int, w as int, canvas.h as int);
                assert(y * w <= 0x7fff_ffff * 0x7fff_ffff) by (nonlinear_arith)
                    requires
                        0 <= y < 0x7fff_ffff,
                        0 <= w <= 0x7fff_ffff,
                ;
                assert(len == buffer.len());
                assert((y * w + x) < area);
            }
            let k = (y * w + x) as usize;
            let cur = buffer[k];
            let v = if a == 255 {
                c
            } else {
                blend(cur, c)
            };
            buffer.set(k, v);
            proof {
                let ki = k as int;
                assert(ki % (w as int) == x && ki / (w as int) == y);
                assert(in_rect(ki, w as int, size, screen));
                assert forall|j: int| 0 <= j < len implies #[trigger] buffer@[j] == if j < area && in_rect(
                    j,
                    w as int,
                    size,
                    screen,
                ) && (j / (w as int) < y || (j / (w as int) == y && j % (w as int) < x + 1)) {
                    paint(start[j], c)
                } else {
                    start[j]
                } by {
                    if j != ki {
                        if j / (w as int) == y && j % (w as int) == x {
                            vstd::arithmetic::div_mod::lemma_fundamental_div_mod(j, w as int);
                            assert((w as int) * (y as int) == (y as int) * (w as int)) by (nonlinear_arith);
                        }
                    }
                }
            }
            x = x + 1;
        }
        y = y + 1;
    }
}

/// Where a run of `w` pixels that starts at `x` in text coordinates lands on
/// the canvas once the view is scrolled right by `scroll_x` and the text
/// starts after a gutter `gutter` wide: its start on the canvas and its
/// width. The part left of the scrolled view is cut off; `None` when
/// nothing is left.
pub open spec fn clip_run_spec(x: int, w: int, scroll_x: int, gutter: int) -> Option<(int, int)> {
    if x < scroll_x {
        let hidden = scroll_x - x;
        if hidden >= w {
            None
        } else {
            Some((gutter, w - hidden))
        }
    } else {
        Some((gutter + x - scroll_x, w))
    }
}

pub fn clip_run(x: i32, w: i32, scroll_x: i32, gutter: i32) -> (r: Option<(i64, i64)>)
    ensures
        match r {
            Some(p) => clip_run_spec(x as int, w as int, scroll_x as int, gutter as int) == Some(
                (p.0 as int, p.1 as int),
            ),
            None => clip_run_spec(x as int, w as int, scroll_x as int, gutter as int).is_none(),
        },
{
    let x = x as i64;
    let w = w as i64;
    let scroll_x = scroll_x as i64;
    let gutter = gutter as i64;
    if x < scroll_x {
        let hidden = scroll_x - x;
        if hidden >= w {
            None
        } else {
            Some((gutter, w - hidden))
        }
    } else {
        Some((gutter + x - scroll_x, w))
    }
}

} // verus!
