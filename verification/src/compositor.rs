//! The software compositor: sprites drawn onto an RGBA frame buffer with
//! clipping, mirroring and integer upscaling.
//!
//! Each covered frame pixel takes one source pixel: a transparent one leaves
//! the frame alone, an opaque one replaces it, and a partly transparent one
//! either lands on an empty pixel as it is or is mixed with what is there by
//! source-over compositing. The mixing is arithmetic on fractions, which the
//! caller supplies as `mix`; everything else is decided here.

use vstd::prelude::*;
use crate::raster::{lemma_offset_in_bounds, lemma_offsets_distinct, offset_of, Image, ImageModel};

verus! {

pub struct Compositor;

/// The four bytes at `i`.
pub open spec fn pixel_at(bytes: Seq<u8>, i: int) -> (u8, u8, u8, u8) {
    (bytes[i], bytes[i + 1], bytes[i + 2], bytes[i + 3])
}

pub open spec fn sprite_pixel(sprite: ImageModel, x: int, y: int) -> (u8, u8, u8, u8) {
    (sprite.byte(x, y, 0), sprite.byte(x, y, 1), sprite.byte(x, y, 2), sprite.byte(x, y, 3))
}

/// What one covered frame pixel `d` becomes under source pixel `s`: `o`.
pub open spec fn composited<F: Fn((u8, u8, u8, u8), (u8, u8, u8, u8)) -> (u8, u8, u8, u8)>(
    mix: F,
    s: (u8, u8, u8, u8),
    d: (u8, u8, u8, u8),
    o: (u8, u8, u8, u8),
) -> bool {
    if s.3 == 0 {
        o == d
    } else if s.3 == 255 {
        o == (s.0, s.1, s.2, 255u8)
    } else if d.3 == 0 {
        o == s
    } else {
        call_ensures(mix, (s, d), o)
    }
}

/// A scale factor, at least one.
pub open spec fn factor(scale: u32) -> nat {
    if scale < 1 {
        1
    } else {
        scale as nat
    }
}

/// The source column that frame column `dx` (counted from the sprite's left
/// edge) shows.
pub open spec fn source_column(sprite_width: nat, scale: nat, flip_x: bool, dx: int) -> int {
    if flip_x {
        sprite_width - 1 - dx / (scale as int)
    } else {
        dx / (scale as int)
    }
}

/// Whether frame pixel `(px, py)` is covered by the sprite drawn at
/// `(dest_x, dest_y)` and scaled by `(kx, ky)`.
pub open spec fn covers(
    sprite: ImageModel,
    dest_x: int,
    dest_y: int,
    kx: nat,
    ky: nat,
    px: int,
    py: int,
) -> bool {
    &&& sprite.width > 0
    &&& sprite.height > 0
    &&& 0 <= px - dest_x < sprite.width * kx
    &&& 0 <= py - dest_y < sprite.height * ky
}

/// The sprite pixel shown at a covered frame pixel.
pub open spec fn shown(
    sprite: ImageModel,
    dest_x: int,
    dest_y: int,
    kx: nat,
    ky: nat,
    flip_x: bool,
    px: int,
    py: int,
) -> (u8, u8, u8, u8) {
    sprite_pixel(
        sprite,
        source_column(sprite.width, kx, flip_x, px - dest_x),
        (py - dest_y) / (ky as int),
    )
}

/// A window pixel whose four bytes all lie in a buffer of `len` bytes.
pub open spec fn whole_pixel(win_w: nat, win_h: nat, len: nat, px: int, py: int) -> bool {
    &&& 0 <= px < win_w
    &&& 0 <= py < win_h
    &&& offset_of(win_w, px, py) + 3 < len
}

impl Compositor {
    /// Clears the frame buffer to complete transparency.
    pub fn clear(frame: &mut Vec<u8>)
        ensures
            final(frame)@.len() == old(frame)@.len(),
            forall|i: int| 0 <= i < final(frame)@.len() ==> final(frame)@[i] == 0,
    {
        let n = frame.len();
        let mut i: usize = 0;
        while i < n
            invariant
                n == frame@.len(),
                i <= n,
                forall|j: int| 0 <= j < i ==> frame@[j] == 0,
            decreases n - i,
        {
            frame.set(i, 0);
            i = i + 1;
        }
    }

    /// Blends `sprite` onto a `win_w` x `win_h` frame with its corner at
    /// `(dest_x, dest_y)`: Porter-Duff source-over, with no mirroring or
    /// scaling.
    pub fn blend_sprite<F: Fn((u8, u8, u8, u8), (u8, u8, u8, u8)) -> (u8, u8, u8, u8)>(
        frame: &mut Vec<u8>,
        win_w: u32,
        win_h: u32,
        sprite: &Image,
        dest_x: i32,
        dest_y: i32,
        mix: &F,
    )
        requires
            sprite.wf(),
            blend_defined(sprite@, win_w, win_h, dest_x, dest_y, 1, 1),
            forall|s: (u8, u8, u8, u8), d: (u8, u8, u8, u8)| call_requires(*mix, (s, d)),
        ensures
            blended(*mix, old(frame)@, final(frame)@, win_w, win_h, sprite@, dest_x, dest_y, false, 1, 1),
    {
        Self::blend_sprite_ex(frame, win_w, win_h, sprite, dest_x, dest_y, false, 1, 1, mix);
    }

    /// Blends `sprite` onto a `win_w` x `win_h` frame with its corner at
    /// `(dest_x, dest_y)`, mirrored when `flip_x` and each source pixel drawn
    /// as a `scale_x` x `scale_y` block (a factor below one counts as one).
    ///
    /// A pixel outside the window, or whose bytes run past the end of the
    /// buffer, is not drawn.
    pub fn blend_sprite_ex<F: Fn((u8, u8, u8, u8), (u8, u8, u8, u8)) -> (u8, u8, u8, u8)>(
        frame: &mut Vec<u8>,
        win_w: u32,
        win_h: u32,
        sprite: &Image,
        dest_x: i32,
        dest_y: i32,
        flip_x: bool,
        scale_x: u32,
        scale_y: u32,
        mix: &F,
    )
        requires
            sprite.wf(),
            blend_defined(sprite@, win_w, win_h, dest_x, dest_y, scale_x, scale_y),
            forall|s: (u8, u8, u8, u8), d: (u8, u8, u8, u8)| call_requires(*mix, (s, d)),
        ensures
            blended(
                *mix,
                old(frame)@,
                final(frame)@,
                win_w,
                win_h,
                sprite@,
                dest_x,
                dest_y,
                flip_x,
                scale_x,
                scale_y,
            ),
    {
        let ghost old_frame = frame@;
        let ghost sp = sprite@;
        let sw = sprite.width();
        let sh = sprite.height();
        if sw == 0 || sh == 0 || win_w == 0 || win_h == 0 {
            return;
        }
        let kx: u32 = if scale_x < 1 {
            1
        } else {
            scale_x
        };
        let ky: u32 = if scale_y < 1 {
            1
        } else {
            scale_y
        };
        let total_w = sw * kx;
        let total_h = sh * ky;
        let mut dy: u32 = 0;
        while dy < total_h
            invariant
                sprite.wf(),
                sp == sprite@,
                sw == sp.width,
                sh == sp.height,
                sw > 0,
                sh > 0,
                kx == factor(scale_x),
                ky == factor(scale_y),
                total_w == sw * kx,
                total_h == sh * ky,
                blend_defined(sp, win_w, win_h, dest_x, dest_y, scale_x, scale_y),
                0 < win_w <= i32::MAX,
                0 < win_h <= i32::MAX,
                forall|s: (u8, u8, u8, u8), d: (u8, u8, u8, u8)| call_requires(*mix, (s, d)),
                dy <= total_h,
                progress(
                    *mix,
                    old_frame,
                    frame@,
                    win_w,
                    win_h,
                    sp,
                    dest_x,
                    dest_y,
                    flip_x,
                    kx as nat,
                    ky as nat,
                    dy as int,
                    0,
                ),
            decreases total_h - dy,
        {
            let py = dest_y + dy as i32;
            if py >= 0 && py < win_h as i32 {
                let sy = dy / ky;
                proof {
                    assert(sy < sh) by (nonlinear_arith)
                        requires
                            dy < sh * ky,
                            sy == dy / ky,
                            ky > 0,
                    ;
                }
                let mut dx: u32 = 0;
                while dx < total_w
                    invariant
                        sprite.wf(),
                        sp == sprite@,
                        sw == sp.width,
                        sh == sp.height,
                        sw > 0,
                        sh > 0,
                        kx == factor(scale_x),
                        ky == factor(scale_y),
                        total_w == sw * kx,
                        total_h == sh * ky,
                        blend_defined(sp, win_w, win_h, dest_x, dest_y, scale_x, scale_y),
                        0 < win_w <= i32::MAX,
                        0 < win_h <= i32::MAX,
                0 < win_w <= i32::MAX,
                0 < win_h <= i32::MAX,
                        forall|s: (u8, u8, u8, u8), d: (u8, u8, u8, u8)| call_requires(*mix, (s, d)),
                        dy < total_h,
                        py == dest_y + dy,
                        0 <= py < win_h,
                        sy == dy / ky,
                        sy < sh,
                        dx <= total_w,
                        progress(
                            *mix,
                            old_frame,
                            frame@,
                            win_w,
                            win_h,
                            sp,
                            dest_x,
                            dest_y,
                            flip_x,
                            kx as nat,
                            ky as nat,
                            dy as int,
                            dx as int,
                        ),
                    decreases total_w - dx,
                {
                    let px = dest_x + dx as i32;
                    if px >= 0 && px < win_w as i32 {
                        let column = dx / kx;
                        proof {
                            assert(column < sw) by (nonlinear_arith)
                                requires
                                    dx < sw * kx,
                                    column == dx / kx,
                                    kx > 0,
                            ;
                        }
                        let sx = if flip_x {
                            sw - 1 - column
                        } else {
                            column
                        };
                        let src = sprite.get_pixel(sx, sy);
                        if src[3] != 0 {
                            proof {
                                lemma_offset_in_bounds(
                                    win_w as nat,
                                    win_h as nat,
                                    px as int,
                                    py as int,
                                );
                            }
                            let idx = ((py as u32 * win_w + px as u32) * 4) as usize;
                            if idx + 3 < frame.len() {
                                let s = (src[0], src[1], src[2], src[3]);
                                let ghost before = frame@;
                                write_pixel(frame, idx, s, mix);
                                proof {
                                    lemma_write_keeps_progress(
                                        *mix,
                                        old_frame,
                                        before,
                                        frame@,
                                        win_w,
                                        win_h,
                                        sp,
                                        dest_x,
                                        dest_y,
                                        flip_x,
                                        kx as nat,
                                        ky as nat,
                                        dy as int,
                                        dx as int,
                                        s,
                                    );
                                }
                            } else {
                                proof {
                                    lemma_skip_keeps_progress(
                                        *mix,
                                        old_frame,
                                        frame@,
                                        win_w,
                                        win_h,
                                        sp,
                                        dest_x,
                                        dest_y,
                                        flip_x,
                                        kx as nat,
                                        ky as nat,
                                        dy as int,
                                        dx as int,
                                    );
                                }
                            }
                        } else {
                            proof {
                                assert(src@ == sp.pixel(sx as int, sy as int));
                                lemma_transparent_keeps_progress(
                                    *mix,
                                    old_frame,
                                    frame@,
                                    win_w,
                                    win_h,
                                    sp,
                                    dest_x,
                                    dest_y,
                                    flip_x,
                                    kx as nat,
                                    ky as nat,
                                    dy as int,
                                    dx as int,
                                );
                            }
                        }
                    } else {
                        proof {
                            lemma_skip_keeps_progress(
                                *mix,
                                old_frame,
                                frame@,
                                win_w,
                                win_h,
                                sp,
                                dest_x,
                                dest_y,
                                flip_x,
                                kx as nat,
                                ky as nat,
                                dy as int,
                                dx as int,
                            );
                        }
                    }
                    dx = dx + 1;
                }
                proof {
                    lemma_row_done(
                        *mix,
                        old_frame,
                        frame@,
                        win_w,
                        win_h,
                        sp,
                        dest_x,
                        dest_y,
                        flip_x,
                        kx as nat,
                        ky as nat,
                        dy as int,
                    );
                }
            } else {
                proof {
                    lemma_row_outside(
                        *mix,
                        old_frame,
                        frame@,
                        win_w,
                        win_h,
                        sp,
                        dest_x,
                        dest_y,
                        flip_x,
                        kx as nat,
                        ky as nat,
                        dy as int,
                    );
                }
            }
            dy = dy + 1;
        }
        proof {
            lemma_all_rows_done(
                *mix,
                old_frame,
                frame@,
                win_w,
                win_h,
                sp,
                dest_x,
                dest_y,
                flip_x,
                scale_x,
                scale_y,
            );
        }
    }
}

/// The inputs on which drawing stays inside the integer types it uses.
pub open spec fn blend_defined(
    sprite: ImageModel,
    win_w: u32,
    win_h: u32,
    dest_x: i32,
    dest_y: i32,
    scale_x: u32,
    scale_y: u32,
) -> bool {
    &&& sprite.width * factor(scale_x) <= i32::MAX
    &&& sprite.height * factor(scale_y) <= i32::MAX
    &&& dest_x + sprite.width * factor(scale_x) <= i32::MAX
    &&& dest_y + sprite.height * factor(scale_y) <= i32::MAX
    &&& (win_w == 0 || win_h == 0 || (win_w <= i32::MAX && win_h <= i32::MAX))
    &&& win_w * win_h * 4 <= u32::MAX
}

/// The frame after drawing: same length; every whole window pixel the sprite
/// covers is composited from the pixel it shows, every other byte is as it
/// was.
pub open spec fn blended<F: Fn((u8, u8, u8, u8), (u8, u8, u8, u8)) -> (u8, u8, u8, u8)>(
    mix: F,
    before: Seq<u8>,
    after: Seq<u8>,
    win_w: u32,
    win_h: u32,
    sprite: ImageModel,
    dest_x: i32,
    dest_y: i32,
    flip_x: bool,
    scale_x: u32,
    scale_y: u32,
) -> bool {
    let kx = factor(scale_x);
    let ky = factor(scale_y);
    &&& after.len() == before.len()
    &&& forall|i: int|
        0 <= i < after.len() && after[i] != before[i] ==> i < win_w * win_h * 4 && i - i % 4 + 3
            < after.len()
    &&& forall|px: int, py: int|
        #![trigger pixel_at(after, offset_of(win_w as nat, px, py))]
        whole_pixel(win_w as nat, win_h as nat, after.len(), px, py) ==> if covers(
            sprite,
            dest_x as int,
            dest_y as int,
            kx,
            ky,
            px,
            py,
        ) {
            composited(
                mix,
                shown(sprite, dest_x as int, dest_y as int, kx, ky, flip_x, px, py),
                pixel_at(before, offset_of(win_w as nat, px, py)),
                pixel_at(after, offset_of(win_w as nat, px, py)),
            )
        } else {
            pixel_at(after, offset_of(win_w as nat, px, py)) == pixel_at(
                before,
                offset_of(win_w as nat, px, py),
            )
        }
}

/// Drawing has reached sprite row `dy` and, within it, column `dx`.
pub open spec fn done(dest_x: int, dest_y: int, dy: int, dx: int, px: int, py: int) -> bool {
    ||| 0 <= py - dest_y < dy
    ||| (py - dest_y == dy && 0 <= px - dest_x < dx)
}

pub open spec fn progress<F: Fn((u8, u8, u8, u8), (u8, u8, u8, u8)) -> (u8, u8, u8, u8)>(
    mix: F,
    before: Seq<u8>,
    now: Seq<u8>,
    win_w: u32,
    win_h: u32,
    sprite: ImageModel,
    dest_x: i32,
    dest_y: i32,
    flip_x: bool,
    kx: nat,
    ky: nat,
    dy: int,
    dx: int,
) -> bool {
    &&& now.len() == before.len()
    &&& forall|i: int|
        0 <= i < now.len() && now[i] != before[i] ==> i < win_w * win_h * 4 && i - i % 4 + 3
            < now.len()
    &&& forall|px: int, py: int|
        #![trigger pixel_at(now, offset_of(win_w as nat, px, py))]
        whole_pixel(win_w as nat, win_h as nat, now.len(), px, py) ==> if covers(
            sprite,
            dest_x as int,
            dest_y as int,
            kx,
            ky,
            px,
            py,
        ) && done(dest_x as int, dest_y as int, dy, dx, px, py) {
            composited(
                mix,
                shown(sprite, dest_x as int, dest_y as int, kx, ky, flip_x, px, py),
                pixel_at(before, offset_of(win_w as nat, px, py)),
                pixel_at(now, offset_of(win_w as nat, px, py)),
            )
        } else {
            pixel_at(now, offset_of(win_w as nat, px, py)) == pixel_at(
                before,
                offset_of(win_w as nat, px, py),
            )
        }
}

/// Composites source pixel `s` onto the four bytes at `idx`.
fn write_pixel<F: Fn((u8, u8, u8, u8), (u8, u8, u8, u8)) -> (u8, u8, u8, u8)>(
    frame: &mut Vec<u8>,
    idx: usize,
    s: (u8, u8, u8, u8),
    mix: &F,
)
    requires
        idx + 3 < old(frame)@.len(),
        s.3 != 0,
        forall|a: (u8, u8, u8, u8), b: (u8, u8, u8, u8)| call_requires(*mix, (a, b)),
    ensures
        final(frame)@.len() == old(frame)@.len(),
        forall|i: int|
            0 <= i < final(frame)@.len() && !(idx <= i < idx + 4) ==> final(frame)@[i] == old(
                frame,
            )@[i],
        composited(
            *mix,
            s,
            pixel_at(old(frame)@, idx as int),
            pixel_at(final(frame)@, idx as int),
        ),
{
    let n = frame.len();
    assert(idx + 3 < n);
    if s.3 == 255 {
        frame.set(idx, s.0);
        frame.set(idx + 1, s.1);
        frame.set(idx + 2, s.2);
        frame.set(idx + 3, 255);
    } else {
        let d = (frame[idx], frame[idx + 1], frame[idx + 2], frame[idx + 3]);
        if d.3 == 0 {
            frame.set(idx, s.0);
            frame.set(idx + 1, s.1);
            frame.set(idx + 2, s.2);
            frame.set(idx + 3, s.3);
        } else {
            let o = mix(s, d);
            frame.set(idx, o.0);
            frame.set(idx + 1, o.1);
            frame.set(idx + 2, o.2);
            frame.set(idx + 3, o.3);
        }
    }
}

/// The byte offsets of one window pixel are a multiple of four apart from the
/// start of the buffer.
proof fn lemma_pixel_bytes(win_w: nat, px: int, py: int, i: int)
    requires
        0 <= px < win_w,
        0 <= py,
        offset_of(win_w, px, py) <= i < offset_of(win_w, px, py) + 4,
    ensures
        i - i % 4 == offset_of(win_w, px, py),
{
    let m = py * win_w + px;
    assert(offset_of(win_w, px, py) == m * 4);
    assert((m * 4 + (i - m * 4)) % 4 == i - m * 4) by (nonlinear_arith)
        requires
            0 <= i - m * 4 < 4,
    ;
}

proof fn lemma_write_keeps_progress<F: Fn((u8, u8, u8, u8), (u8, u8, u8, u8)) -> (u8, u8, u8, u8)>(
    mix: F,
    start: Seq<u8>,
    before: Seq<u8>,
    now: Seq<u8>,
    win_w: u32,
    win_h: u32,
    sprite: ImageModel,
    dest_x: i32,
    dest_y: i32,
    flip_x: bool,
    kx: nat,
    ky: nat,
    dy: int,
    dx: int,
    s: (u8, u8, u8, u8),
)
    requires
        progress(mix, start, before, win_w, win_h, sprite, dest_x, dest_y, flip_x, kx, ky, dy, dx),
        sprite.width > 0,
        sprite.height > 0,
        0 <= dx < sprite.width * kx,
        0 <= dy < sprite.height * ky,
        0 <= dest_x + dx < win_w,
        0 <= dest_y + dy < win_h,
        s == shown(sprite, dest_x as int, dest_y as int, kx, ky, flip_x, dest_x + dx, dest_y + dy),
        offset_of(win_w as nat, dest_x + dx, dest_y + dy) + 3 < before.len(),
        now.len() == before.len(),
        forall|i: int|
            0 <= i < now.len() && !(offset_of(win_w as nat, dest_x + dx, dest_y + dy) <= i
                < offset_of(win_w as nat, dest_x + dx, dest_y + dy) + 4) ==> now[i] == before[i],
        composited(
            mix,
            s,
            pixel_at(before, offset_of(win_w as nat, dest_x + dx, dest_y + dy)),
            pixel_at(now, offset_of(win_w as nat, dest_x + dx, dest_y + dy)),
        ),
    ensures
        progress(mix, start, now, win_w, win_h, sprite, dest_x, dest_y, flip_x, kx, ky, dy, dx + 1),
{
    let px = dest_x + dx;
    let py = dest_y + dy;
    let o = offset_of(win_w as nat, px, py);
    lemma_offset_in_bounds(win_w as nat, win_h as nat, px, py);
    assert(whole_pixel(win_w as nat, win_h as nat, before.len(), px, py));
    assert(pixel_at(before, o) == pixel_at(start, o));
    assert forall|i: int|
        0 <= i < now.len() && now[i] != start[i] implies i < win_w * win_h * 4 && i - i % 4 + 3
        < now.len() by {
        if o <= i < o + 4 {
            lemma_pixel_bytes(win_w as nat, px, py, i);
        } else {
            assert(now[i] == before[i]);
        }
    }
    assert forall|qx: int, qy: int|
        #![trigger pixel_at(now, offset_of(win_w as nat, qx, qy))]
        whole_pixel(win_w as nat, win_h as nat, now.len(), qx, qy) implies if covers(
            sprite,
            dest_x as int,
            dest_y as int,
            kx,
            ky,
            qx,
            qy,
        ) && done(dest_x as int, dest_y as int, dy, dx + 1, qx, qy) {
            composited(
                mix,
                shown(sprite, dest_x as int, dest_y as int, kx, ky, flip_x, qx, qy),
                pixel_at(start, offset_of(win_w as nat, qx, qy)),
                pixel_at(now, offset_of(win_w as nat, qx, qy)),
            )
        } else {
            pixel_at(now, offset_of(win_w as nat, qx, qy)) == pixel_at(
                start,
                offset_of(win_w as nat, qx, qy),
            )
        } by {
        let q = offset_of(win_w as nat, qx, qy);
        assert(pixel_at(before, q) == pixel_at(before, offset_of(win_w as nat, qx, qy)));
        if qx == px && qy == py {
        } else {
            lemma_offsets_distinct(win_w as nat, qx, qy, px, py);
            assert(pixel_at(now, q) == pixel_at(before, q));
        }
    }
}

proof fn lemma_skip_keeps_progress<F: Fn((u8, u8, u8, u8), (u8, u8, u8, u8)) -> (u8, u8, u8, u8)>(
    mix: F,
    start: Seq<u8>,
    now: Seq<u8>,
    win_w: u32,
    win_h: u32,
    sprite: ImageModel,
    dest_x: i32,
    dest_y: i32,
    flip_x: bool,
    kx: nat,
    ky: nat,
    dy: int,
    dx: int,
)
    requires
        progress(mix, start, now, win_w, win_h, sprite, dest_x, dest_y, flip_x, kx, ky, dy, dx),
        !whole_pixel(win_w as nat, win_h as nat, now.len(), dest_x + dx, dest_y + dy),
    ensures
        progress(mix, start, now, win_w, win_h, sprite, dest_x, dest_y, flip_x, kx, ky, dy, dx + 1),
{
    assert forall|qx: int, qy: int|
        #![trigger pixel_at(now, offset_of(win_w as nat, qx, qy))]
        whole_pixel(win_w as nat, win_h as nat, now.len(), qx, qy) implies if covers(
            sprite,
            dest_x as int,
            dest_y as int,
            kx,
            ky,
            qx,
            qy,
        ) && done(dest_x as int, dest_y as int, dy, dx + 1, qx, qy) {
            composited(
                mix,
                shown(sprite, dest_x as int, dest_y as int, kx, ky, flip_x, qx, qy),
                pixel_at(start, offset_of(win_w as nat, qx, qy)),
                pixel_at(now, offset_of(win_w as nat, qx, qy)),
            )
        } else {
            pixel_at(now, offset_of(win_w as nat, qx, qy)) == pixel_at(
                start,
                offset_of(win_w as nat, qx, qy),
            )
        } by {
        if qx == dest_x + dx && qy == dest_y + dy {
        } else {
        }
    }
}

proof fn lemma_transparent_keeps_progress<
    F: Fn((u8, u8, u8, u8), (u8, u8, u8, u8)) -> (u8, u8, u8, u8),
>(
    mix: F,
    start: Seq<u8>,
    now: Seq<u8>,
    win_w: u32,
    win_h: u32,
    sprite: ImageModel,
    dest_x: i32,
    dest_y: i32,
    flip_x: bool,
    kx: nat,
    ky: nat,
    dy: int,
    dx: int,
)
    requires
        progress(mix, start, now, win_w, win_h, sprite, dest_x, dest_y, flip_x, kx, ky, dy, dx),
        shown(sprite, dest_x as int, dest_y as int, kx, ky, flip_x, dest_x + dx, dest_y + dy).3
            == 0,
    ensures
        progress(mix, start, now, win_w, win_h, sprite, dest_x, dest_y, flip_x, kx, ky, dy, dx + 1),
{
    assert forall|qx: int, qy: int|
        #![trigger pixel_at(now, offset_of(win_w as nat, qx, qy))]
        whole_pixel(win_w as nat, win_h as nat, now.len(), qx, qy) implies if covers(
            sprite,
            dest_x as int,
            dest_y as int,
            kx,
            ky,
            qx,
            qy,
        ) && done(dest_x as int, dest_y as int, dy, dx + 1, qx, qy) {
            composited(
                mix,
                shown(sprite, dest_x as int, dest_y as int, kx, ky, flip_x, qx, qy),
                pixel_at(start, offset_of(win_w as nat, qx, qy)),
                pixel_at(now, offset_of(win_w as nat, qx, qy)),
            )
        } else {
            pixel_at(now, offset_of(win_w as nat, qx, qy)) == pixel_at(
                start,
                offset_of(win_w as nat, qx, qy),
            )
        } by {
        if qx == dest_x + dx && qy == dest_y + dy {
        } else {
        }
    }
}

proof fn lemma_row_done<F: Fn((u8, u8, u8, u8), (u8, u8, u8, u8)) -> (u8, u8, u8, u8)>(
    mix: F,
    start: Seq<u8>,
    now: Seq<u8>,
    win_w: u32,
    win_h: u32,
    sprite: ImageModel,
    dest_x: i32,
    dest_y: i32,
    flip_x: bool,
    kx: nat,
    ky: nat,
    dy: int,
)
    requires
        progress(
            mix,
            start,
            now,
            win_w,
            win_h,
            sprite,
            dest_x,
            dest_y,
            flip_x,
            kx,
            ky,
            dy,
            (sprite.width * kx) as int,
        ),
    ensures
        progress(mix, start, now, win_w, win_h, sprite, dest_x, dest_y, flip_x, kx, ky, dy + 1, 0),
{
    assert forall|qx: int, qy: int|
        #![trigger pixel_at(now, offset_of(win_w as nat, qx, qy))]
        whole_pixel(win_w as nat, win_h as nat, now.len(), qx, qy) implies if covers(
            sprite,
            dest_x as int,
            dest_y as int,
            kx,
            ky,
            qx,
            qy,
        ) && done(dest_x as int, dest_y as int, dy + 1, 0, qx, qy) {
            composited(
                mix,
                shown(sprite, dest_x as int, dest_y as int, kx, ky, flip_x, qx, qy),
                pixel_at(start, offset_of(win_w as nat, qx, qy)),
                pixel_at(now, offset_of(win_w as nat, qx, qy)),
            )
        } else {
            pixel_at(now, offset_of(win_w as nat, qx, qy)) == pixel_at(
                start,
                offset_of(win_w as nat, qx, qy),
            )
        } by {
        if covers(sprite, dest_x as int, dest_y as int, kx, ky, qx, qy) {
            assert(done(dest_x as int, dest_y as int, dy + 1, 0, qx, qy) == done(
                dest_x as int,
                dest_y as int,
                dy,
                (sprite.width * kx) as int,
                qx,
                qy,
            ));
        }
    }
}

proof fn lemma_row_outside<F: Fn((u8, u8, u8, u8), (u8, u8, u8, u8)) -> (u8, u8, u8, u8)>(
    mix: F,
    start: Seq<u8>,
    now: Seq<u8>,
    win_w: u32,
    win_h: u32,
    sprite: ImageModel,
    dest_x: i32,
    dest_y: i32,
    flip_x: bool,
    kx: nat,
    ky: nat,
    dy: int,
)
    requires
        progress(mix, start, now, win_w, win_h, sprite, dest_x, dest_y, flip_x, kx, ky, dy, 0),
        !(0 <= dest_y + dy < win_h),
    ensures
        progress(mix, start, now, win_w, win_h, sprite, dest_x, dest_y, flip_x, kx, ky, dy + 1, 0),
{
    assert forall|qx: int, qy: int|
        #![trigger pixel_at(now, offset_of(win_w as nat, qx, qy))]
        whole_pixel(win_w as nat, win_h as nat, now.len(), qx, qy) implies if covers(
            sprite,
            dest_x as int,
            dest_y as int,
            kx,
            ky,
            qx,
            qy,
        ) && done(dest_x as int, dest_y as int, dy + 1, 0, qx, qy) {
            composited(
                mix,
                shown(sprite, dest_x as int, dest_y as int, kx, ky, flip_x, qx, qy),
                pixel_at(start, offset_of(win_w as nat, qx, qy)),
                pixel_at(now, offset_of(win_w as nat, qx, qy)),
            )
        } else {
            pixel_at(now, offset_of(win_w as nat, qx, qy)) == pixel_at(
                start,
                offset_of(win_w as nat, qx, qy),
            )
        } by {
        assert(qy != dest_y + dy);
    }
}

proof fn lemma_all_rows_done<F: Fn((u8, u8, u8, u8), (u8, u8, u8, u8)) -> (u8, u8, u8, u8)>(
    mix: F,
    start: Seq<u8>,
    now: Seq<u8>,
    win_w: u32,
    win_h: u32,
    sprite: ImageModel,
    dest_x: i32,
    dest_y: i32,
    flip_x: bool,
    scale_x: u32,
    scale_y: u32,
)
    requires
        progress(
            mix,
            start,
            now,
            win_w,
            win_h,
            sprite,
            dest_x,
            dest_y,
            flip_x,
            factor(scale_x),
            factor(scale_y),
            (sprite.height * factor(scale_y)) as int,
            0,
        ),
    ensures
        blended(mix, start, now, win_w, win_h, sprite, dest_x, dest_y, flip_x, scale_x, scale_y),
{
}

} // verus!
